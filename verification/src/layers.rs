//! Scope layers and their aggregation into one merged style map.
//!
//! Each contributing source owns one `ScopeLayer`: lookup tables from
//! small indices to scope-name stacks and to resolved styles, a span map
//! of scope indices, and a derived, compressed span map of styles. The
//! `Scopes` aggregate keys the layers by a totally ordered source
//! identifier and composites them, in ascending identifier order, into
//! one merged style map covering the whole document.

use vstd::prelude::*;

use syntect::parsing::Scope;

use crate::interval::Interval;
use crate::resolver::{parse_scope, resolve_stack, StyleResolver};
use crate::spans::{lemma_spans_seq_run, offset_of, SpanMap};
use crate::style::Style;

verus! {

/// Whether a stored scope index may be looked up against tables of
/// `n` entries; an unset position is always valid.
pub open spec fn index_valid(v: Option<u32>, n: nat) -> bool {
    match v {
        None => true,
        Some(ix) => ix < n,
    }
}

/// The style a stored scope index stands for: the looked-up style for a
/// valid index, the default style for an unset position, and (never
/// reached under the layer's invariant) the default for an index out of
/// range.
pub open spec fn style_of(lookup: Seq<Style>, v: Option<u32>) -> Style {
    match v {
        None => Style::default_spec(),
        Some(ix) => if ix < lookup.len() {
            lookup[ix as int]
        } else {
            Style::default_spec()
        },
    }
}

/// A collection of scope spans from a single source.
pub struct ScopeLayer {
    pub stack_lookup: Vec<Vec<Scope>>,
    pub style_lookup: Vec<Style>,
    /// Human readable scope names, for diagnostics only.
    pub name_lookup: Vec<Vec<String>>,
    pub scope_spans: SpanMap<Option<u32>>,
    pub style_spans: SpanMap<Style>,
}

impl ScopeLayer {
    /// The layer's covered length, in document offset units.
    pub open spec fn spec_len(self) -> nat {
        self.scope_spans.view().len()
    }

    /// The layer's invariant: both span maps cover the same length, the
    /// lookup tables run in parallel, every stored index is valid
    /// against them, the style spans are exactly the looked-up styles of
    /// the scope spans, and no two adjacent style runs are equal.
    pub open spec fn wf(self) -> bool {
        &&& self.scope_spans.wf()
        &&& self.style_spans.wf()
        &&& self.style_spans.coalesced()
        &&& self.scope_spans.view().len() == self.style_spans.view().len()
        &&& self.style_lookup@.len() == self.stack_lookup@.len()
        &&& self.name_lookup@.len() == self.stack_lookup@.len()
        &&& forall|p: int|
            0 <= p < self.scope_spans.view().len() ==> index_valid(
                #[trigger] self.scope_spans.view()[p],
                self.style_lookup@.len(),
            )
        &&& forall|p: int|
            0 <= p < self.style_spans.view().len() ==> #[trigger] self.style_spans.view()[p]
                == style_of(self.style_lookup@, self.scope_spans.view()[p])
    }

    /// A fresh layer covering `[0, len)` with no scopes and default style.
    pub fn new(len: usize) -> (r: ScopeLayer)
        ensures
            r.wf(),
            r.spec_len() == len,
            r.stack_lookup@.len() == 0,
            r.style_lookup@.len() == 0,
            r.name_lookup@.len() == 0,
            forall|p: int| 0 <= p < len ==> r.scope_spans.view()[p] == None::<u32>,
            forall|p: int| 0 <= p < len ==> r.style_spans.view()[p] == Style::default_spec(),
    {
        ScopeLayer {
            stack_lookup: Vec::new(),
            style_lookup: Vec::new(),
            name_lookup: Vec::new(),
            scope_spans: SpanMap::uniform(len, None),
            style_spans: SpanMap::uniform(len, Style::default()),
        }
    }
}

impl Default for ScopeLayer {
    /// A fresh layer covering the empty document.
    fn default() -> (r: ScopeLayer)
        ensures
            r.wf(),
            r.spec_len() == 0,
            r.stack_lookup@.len() == 0,
    {
        ScopeLayer::new(0)
    }
}

/// The style spans a scope-index map stands for under a lookup table:
/// each position's index looked up, with equal adjacent runs coalesced.
fn build_styles(spans: &SpanMap<Option<u32>>, lookup: &Vec<Style>) -> (r: SpanMap<Style>)
    requires
        spans.wf(),
    ensures
        r.wf(),
        r.coalesced(),
        r.view().len() == spans.view().len(),
        r.total == spans.total,
        forall|p: int|
            0 <= p < spans.view().len() ==> #[trigger] r.view()[p] == style_of(
                lookup@,
                spans.view()[p],
            ),
{
    let mut out: SpanMap<Style> = SpanMap::new();
    let mut i: usize = 0;
    proof {
        assert(spans.spans@.take(0) =~= Seq::<crate::spans::Span<Option<u32>>>::empty());
    }
    while i < spans.spans.len()
        invariant
            spans.wf(),
            out.wf(),
            out.coalesced(),
            0 <= i <= spans.spans@.len(),
            out.view().len() == offset_of(spans.spans@, i as int),
            out.view().len() <= spans.view().len(),
            forall|p: int|
                0 <= p < out.view().len() ==> #[trigger] out.view()[p] == style_of(
                    lookup@,
                    spans.view()[p],
                ),
        decreases spans.spans@.len() - i,
    {
        proof {
            lemma_spans_seq_run(spans.spans@, i as int);
        }
        let sp_len = spans.spans[i].len;
        let sp_val = spans.spans[i].val;
        let sty = match sp_val {
            None => Style::default(),
            Some(ix) => {
                if (ix as usize) < lookup.len() {
                    lookup[ix as usize]
                } else {
                    Style::default()
                }
            },
        };
        proof {
            assert(forall|p: int|
                offset_of(spans.spans@, i as int) <= p < offset_of(spans.spans@, i as int)
                    + sp_len ==> #[trigger] spans.view()[p] == sp_val);
        }
        out.push_span_coalesce(sp_len, sty);
        i = i + 1;
    }
    proof {
        assert(spans.spans@.take(spans.spans@.len() as int) =~= spans.spans@);
    }
    out
}

impl ScopeLayer {
    /// Resolves each stack against the active theme, one answer per
    /// stack, in order.
    fn styles_for_stacks(&self, stacks: &Vec<Vec<Scope>>, resolver: &StyleResolver) -> (r: Vec<
        Style,
    >)
        ensures
            r@.len() == stacks@.len(),
    {
        let mut out: Vec<Style> = Vec::new();
        let mut i: usize = 0;
        while i < stacks.len()
            invariant
                out@.len() == i,
                0 <= i <= stacks@.len(),
            decreases stacks@.len() - i,
        {
            let parts = resolve_stack(resolver, &stacks[i]);
            out.push(Style::from_parts(parts));
            i = i + 1;
        }
        out
    }

    /// Adds the provided scope stacks to the layer's lookup tables.
    ///
    /// Scope names that fail to parse are dropped from their stack; the
    /// stack proceeds with its remaining names. The raw names are kept
    /// for diagnostics, and the resolved style of each stack is appended
    /// in tandem. No span changes.
    pub fn add_scopes(&mut self, scopes: Vec<Vec<String>>, resolver: &StyleResolver)
        requires
            old(self).wf(),
            old(self).stack_lookup@.len() + scopes@.len() <= usize::MAX,
        ensures
            final(self).wf(),
            final(self).name_lookup@ == old(self).name_lookup@ + scopes@,
            final(self).stack_lookup@.len() == old(self).stack_lookup@.len() + scopes@.len(),
            final(self).style_lookup@.len() == old(self).style_lookup@.len() + scopes@.len(),
            forall|k: int|
                0 <= k < old(self).style_lookup@.len() ==> #[trigger] final(self).style_lookup@[k]
                    == old(self).style_lookup@[k],
            forall|k: int|
                0 <= k < old(self).stack_lookup@.len() ==> #[trigger] final(self).stack_lookup@[k]
                    == old(self).stack_lookup@[k],
            final(self).scope_spans == old(self).scope_spans,
            final(self).style_spans == old(self).style_spans,
            final(self).spec_len() == old(self).spec_len(),
    {
        let mut stacks: Vec<Vec<Scope>> = Vec::new();
        let mut i: usize = 0;
        while i < scopes.len()
            invariant
                stacks@.len() == i,
                0 <= i <= scopes@.len(),
            decreases scopes@.len() - i,
        {
            let stack = &scopes[i];
            let mut cur: Vec<Scope> = Vec::new();
            let mut j: usize = 0;
            while j < stack.len()
                decreases stack@.len() - j,
            {
                match parse_scope(&stack[j]) {
                    Some(s) => cur.push(s),
                    None => {},
                }
                j = j + 1;
            }
            stacks.push(cur);
            i = i + 1;
        }
        let mut new_styles = self.styles_for_stacks(&stacks, resolver);
        let mut names = scopes;
        self.name_lookup.append(&mut names);
        self.stack_lookup.append(&mut stacks);
        self.style_lookup.append(&mut new_styles);
        proof {
            assert forall|p: int| 0 <= p < self.style_spans.view().len() implies #[trigger] self
                .style_spans
                .view()[p] == style_of(self.style_lookup@, self.scope_spans.view()[p]) by {
                assert(index_valid(self.scope_spans.view()[p], old(self).style_lookup@.len()));
            }
        }
    }

    /// Re-resolves every stack against the new theme, rebuilding the
    /// style lookup in place, then recomputes the style spans over the
    /// whole covered length from the unchanged scope spans.
    pub fn theme_changed(&mut self, resolver: &StyleResolver)
        requires
            old(self).wf(),
        ensures
            final(self).wf(),
            final(self).stack_lookup == old(self).stack_lookup,
            final(self).name_lookup == old(self).name_lookup,
            final(self).scope_spans == old(self).scope_spans,
            final(self).style_lookup@.len() == old(self).style_lookup@.len(),
            final(self).spec_len() == old(self).spec_len(),
    {
        let new_styles = self.styles_for_stacks(&self.stack_lookup, resolver);
        self.style_lookup = new_styles;
        let built = build_styles(&self.scope_spans, &self.style_lookup);
        self.style_spans = built;
    }

    /// Updates the style spans over `iv` from the given scope spans:
    /// each position's index is substituted by its looked-up style, and
    /// adjacent spans that resolve to the same style are combined into
    /// single wider spans before the result is written in.
    fn update_styles(&mut self, iv: Interval, spans: &SpanMap<Option<u32>>)
        requires
            old(self).style_spans.wf(),
            iv.wf(),
            iv.end <= old(self).style_spans.view().len(),
            spans.wf(),
            iv.start + spans.view().len() + (old(self).style_spans.view().len() - iv.end)
                <= usize::MAX,
        ensures
            final(self).style_spans.wf(),
            final(self).style_spans.coalesced(),
            final(self).style_spans.view() =~= old(self).style_spans.view().take(iv.start as int)
                + Seq::new(
                spans.view().len(),
                |q: int| style_of(old(self).style_lookup@, spans.view()[q]),
            ) + old(self).style_spans.view().skip(iv.end as int),
            final(self).stack_lookup == old(self).stack_lookup,
            final(self).style_lookup == old(self).style_lookup,
            final(self).name_lookup == old(self).name_lookup,
            final(self).scope_spans == old(self).scope_spans,
    {
        let built = build_styles(spans, &self.style_lookup);
        self.style_spans.edit_coalesced(iv, &built);
        proof {
            assert(built.view() =~= Seq::new(
                spans.view().len(),
                |q: int| style_of(old(self).style_lookup@, spans.view()[q]),
            ));
        }
    }

    /// Replaces the scope spans over `iv` with `spans` (whose indices
    /// must be valid against this layer's lookup tables), then
    /// recomputes the style spans for the same region.
    pub fn update_scopes(&mut self, iv: Interval, spans: &SpanMap<Option<u32>>)
        requires
            old(self).wf(),
            iv.wf(),
            iv.end <= old(self).spec_len(),
            spans.wf(),
            forall|p: int|
                0 <= p < spans.view().len() ==> index_valid(
                    #[trigger] spans.view()[p],
                    old(self).style_lookup@.len(),
                ),
            iv.start + spans.view().len() + (old(self).spec_len() - iv.end) <= usize::MAX,
        ensures
            final(self).wf(),
            final(self).scope_spans.view() =~= old(self).scope_spans.view().take(iv.start as int)
                + spans.view() + old(self).scope_spans.view().skip(iv.end as int),
            final(self).spec_len() == old(self).spec_len() - iv.spec_len() + spans.view().len(),
            final(self).stack_lookup == old(self).stack_lookup,
            final(self).style_lookup == old(self).style_lookup,
            final(self).name_lookup == old(self).name_lookup,
            final(self).style_spans.view() =~= old(self).style_spans.view().take(iv.start as int)
                + Seq::new(
                spans.view().len(),
                |q: int| style_of(old(self).style_lookup@, spans.view()[q]),
            ) + old(self).style_spans.view().skip(iv.end as int),
    {
        self.scope_spans.edit(iv, spans);
        self.update_styles(iv, spans);
        proof {
            let ns = final(self).scope_spans.view();
            let sty = final(self).style_spans.view();
            assert forall|p: int| 0 <= p < sty.len() implies #[trigger] sty[p] == style_of(
                final(self).style_lookup@,
                ns[p],
            ) by {}
            assert forall|p: int| 0 <= p < ns.len() implies index_valid(
                #[trigger] ns[p],
                final(self).style_lookup@.len(),
            ) by {}
        }
    }
}

/// What the merge step keeps for one sub-interval: the overlay's set
/// attributes take precedence where the overlay covers it, and the base
/// value is kept where it does not.
pub open spec fn combine_overlay(a: Style, b: Option<Style>) -> Style {
    match b {
        Some(x) => a.merge_spec(x),
        None => a,
    }
}

/// The style at position `p` after compositing `views` in order: the
/// first view is the base, and each later view is overlaid on the
/// result so far, its set attributes taking precedence.
pub open spec fn resolve_at(views: Seq<Seq<Style>>, p: int) -> Style
    decreases views.len(),
{
    if views.len() == 0 {
        Style::default_spec()
    } else if views.len() == 1 {
        views[0][p]
    } else {
        resolve_at(views.drop_last(), p).merge_spec(views.last()[p])
    }
}

/// Compositing reads each view only at the position asked about.
pub proof fn lemma_resolve_at_congruence(a: Seq<Seq<Style>>, b: Seq<Seq<Style>>, p: int, q: int)
    requires
        a.len() == b.len(),
        forall|i: int| 0 <= i < a.len() ==> #[trigger] a[i][p] == b[i][q],
    ensures
        resolve_at(a, p) == resolve_at(b, q),
    decreases a.len(),
{
    if a.len() > 1 {
        lemma_resolve_at_congruence(a.drop_last(), b.drop_last(), p, q);
    }
}

/// Where every layer carries the default style, so does the composite.
pub proof fn lemma_resolve_at_all_default(views: Seq<Seq<Style>>, p: int)
    requires
        forall|i: int| 0 <= i < views.len() ==> #[trigger] views[i][p] == Style::default_spec(),
    ensures
        resolve_at(views, p) == Style::default_spec(),
    decreases views.len(),
{
    if views.len() > 1 {
        lemma_resolve_at_all_default(views.drop_last(), p);
    }
}

/// Inserting a layer that carries the default style anywhere in the
/// order leaves the composite unchanged: the default style is the
/// identity of style overlay on both sides.
pub proof fn lemma_resolve_at_insert_default(
    views: Seq<Seq<Style>>,
    k: int,
    dv: Seq<Style>,
    p: int,
)
    requires
        0 <= k <= views.len(),
        dv[p] == Style::default_spec(),
        views.len() > 0,
    ensures
        resolve_at(views.insert(k, dv), p) == resolve_at(views, p),
    decreases views.len(),
{
    let w = views.insert(k, dv);
    let n = views.len() as int;
    if k == n {
        assert(w.drop_last() =~= views);
        assert(w.last() == dv);
        crate::style::lemma_default_is_merge_identity(resolve_at(views, p));
        if n == 1 {
            assert(resolve_at(w, p) == views[0][p].merge_spec(Style::default_spec()));
        }
    } else {
        assert(w.last() == views.last());
        assert(w.drop_last() =~= views.drop_last().insert(k, dv));
        if n == 1 {
            assert(w.drop_last() =~= seq![dv]);
            assert(resolve_at(w.drop_last(), p) == dv[p]);
            crate::style::lemma_default_is_merge_identity(views[0][p]);
            assert(resolve_at(w, p) == Style::default_spec().merge_spec(views[0][p]));
        } else {
            lemma_resolve_at_insert_default(views.drop_last(), k, dv, p);
        }
    }
}

/// A collection of layers containing scope information, composited into
/// one merged style map over the whole document.
pub struct Scopes {
    pub layers: Vec<(u64, ScopeLayer)>,
    pub merged: SpanMap<Style>,
}

impl Scopes {
    /// The current document length.
    pub open spec fn doc_len(self) -> nat {
        self.merged.view().len()
    }

    /// The source identifiers, in storage order.
    pub open spec fn ids(self) -> Seq<u64> {
        self.layers@.map(|i: int, e: (u64, ScopeLayer)| e.0)
    }

    /// Each layer's style spans, in ascending identifier order.
    pub open spec fn layer_styles(self) -> Seq<Seq<Style>> {
        self.layers@.map(|i: int, e: (u64, ScopeLayer)| e.1.style_spans.view())
    }

    pub open spec fn has_layer(self, id: u64) -> bool {
        exists|k: int| 0 <= k < self.layers@.len() && (#[trigger] self.layers@[k]).0 == id
    }

    pub open spec fn layer_k(self, id: u64) -> int {
        choose|k: int| 0 <= k < self.layers@.len() && (#[trigger] self.layers@[k]).0 == id
    }

    /// The layer registered under `id`; meaningful only when present.
    pub open spec fn layer_at(self, id: u64) -> ScopeLayer {
        self.layers@[self.layer_k(id)].1
    }

    /// How many stacks the layer under `id` holds; zero when absent.
    pub open spec fn stack_count(self, id: u64) -> nat {
        if self.has_layer(id) {
            self.layer_at(id).style_lookup@.len()
        } else {
            0
        }
    }

    /// Everything except the merged map's content: every layer is
    /// well formed, covers the document length in lockstep with the
    /// merged map, and the identifiers ascend strictly.
    pub open spec fn layers_ok(self) -> bool {
        &&& self.merged.wf()
        &&& self.merged.coalesced()
        &&& forall|k: int| 0 <= k < self.layers@.len() ==> (#[trigger] self.layers@[k]).1.wf()
        &&& forall|k: int|
            0 <= k < self.layers@.len() ==> (#[trigger] self.layers@[k]).1.spec_len()
                == self.doc_len()
        &&& forall|k1: int, k2: int|
            0 <= k1 < k2 < self.layers@.len() ==> (#[trigger] self.layers@[k1]).0 < (
            #[trigger] self.layers@[k2]).0
    }

    /// The merged map holds exactly the composite of the layers; with no
    /// layers registered it carries only the default style.
    pub open spec fn merged_ok(self) -> bool {
        if self.layers@.len() == 0 {
            forall|p: int|
                0 <= p < self.doc_len() ==> self.merged.view()[p] == Style::default_spec()
        } else {
            forall|p: int|
                0 <= p < self.doc_len() ==> self.merged.view()[p] == resolve_at(
                    self.layer_styles(),
                    p,
                )
        }
    }

    pub open spec fn wf(self) -> bool {
        self.layers_ok() && self.merged_ok()
    }

    /// Two registered identifiers are the same entry when equal.
    proof fn lemma_id_unique(self, k1: int, k2: int)
        requires
            self.layers_ok(),
            0 <= k1 < self.layers@.len(),
            0 <= k2 < self.layers@.len(),
            self.layers@[k1].0 == self.layers@[k2].0,
        ensures
            k1 == k2,
    {
    }

    /// A collection over the empty document, with no layers.
    pub fn new() -> (r: Scopes)
        ensures
            r.wf(),
            r.doc_len() == 0,
            r.layers@.len() == 0,
    {
        Scopes { layers: Vec::new(), merged: SpanMap::new() }
    }

    pub fn get_merged(&self) -> (r: &SpanMap<Style>)
        ensures
            *r == self.merged,
    {
        &self.merged
    }

    /// The slot where `id` is stored, or where it would be inserted.
    fn layer_pos(&self, id: u64) -> (r: usize)
        requires
            self.layers_ok(),
        ensures
            r <= self.layers@.len(),
            forall|k: int| 0 <= k < r ==> (#[trigger] self.layers@[k]).0 < id,
            r < self.layers@.len() ==> self.layers@[r as int].0 >= id,
    {
        let mut k: usize = 0;
        while k < self.layers.len()
            invariant
                self.layers_ok(),
                0 <= k <= self.layers@.len(),
                forall|j: int| 0 <= j < k ==> (#[trigger] self.layers@[j]).0 < id,
            decreases self.layers@.len() - k,
        {
            if self.layers[k].0 >= id {
                return k;
            }
            k = k + 1;
        }
        k
    }

    /// Registers an empty layer for `id`, sized to the current document
    /// length, when none is present yet. The merged map is untouched:
    /// an empty layer contributes nothing.
    fn create_if_missing(&mut self, id: u64)
        requires
            old(self).wf(),
            old(self).layers@.len() < usize::MAX,
        ensures
            final(self).wf(),
            final(self).doc_len() == old(self).doc_len(),
            final(self).merged == old(self).merged,
            final(self).has_layer(id),
            old(self).has_layer(id) ==> final(self).layers == old(self).layers,
            !old(self).has_layer(id) ==> {
                &&& final(self).layers@.len() == old(self).layers@.len() + 1
                &&& final(self).layer_at(id).stack_lookup@.len() == 0
                &&& final(self).layer_at(id).style_lookup@.len() == 0
                &&& final(self).layer_at(id).name_lookup@.len() == 0
            },
            forall|oid: u64|
                #[trigger] old(self).has_layer(oid) ==> final(self).has_layer(oid) && final(self).layer_at(oid) == old(self).layer_at(oid),
            forall|oid: u64|
                #[trigger] final(self).has_layer(oid) ==> oid == id || old(self).has_layer(oid),
    {
        let pos = self.layer_pos(id);
        if pos < self.layers.len() && self.layers[pos].0 == id {
            proof {
                assert(self.has_layer(id));
                assert forall|oid: u64| #[trigger] old(self).has_layer(oid) implies final(self).has_layer(oid) && final(self).layer_at(oid) == old(self).layer_at(oid) by {}
            }
            return ;
        }
        let len = self.merged.len();
        let fresh = ScopeLayer::new(len);
        self.layers.insert(pos, (id, fresh));
        proof {
            let olds = old(self).layers@;
            let news = self.layers@;
            let pk = pos as int;
            assert(news =~= olds.insert(pk, (id, fresh)));
            assert(news[pk].0 == id);
            assert(self.has_layer(id));
            self.lemma_id_unique(self.layer_k(id), pk);
            assert(self.layer_at(id) == fresh);
            assert forall|k1: int, k2: int|
                0 <= k1 < k2 < news.len() implies (#[trigger] news[k1]).0 < (
            #[trigger] news[k2]).0 by {
                assert(pk < olds.len() ==> olds[pk].0 > id);
            }
            // the merged content is unchanged and the fresh layer is the
            // overlay identity everywhere
            let nv = self.layer_styles();
            let ov = old(self).layer_styles();
            assert(nv =~= ov.insert(pk, fresh.style_spans.view()));
            assert forall|p: int| 0 <= p < self.doc_len() implies self.merged.view()[p]
                == resolve_at(nv, p) by {
                if ov.len() == 0 {
                    assert(nv =~= seq![fresh.style_spans.view()]);
                    assert(resolve_at(nv, p) == fresh.style_spans.view()[p]);
                } else {
                    lemma_resolve_at_insert_default(ov, pk, fresh.style_spans.view(), p);
                }
            }
            assert forall|oid: u64| #[trigger] old(self).has_layer(oid) implies final(self).has_layer(oid) && final(self).layer_at(oid) == old(self).layer_at(oid) by {
                let k = old(self).layer_k(oid);
                let nk = if k < pk {
                    k
                } else {
                    k + 1
                };
                assert(news[nk].0 == oid);
                self.lemma_id_unique(self.layer_k(oid), nk);
            }
            assert forall|oid: u64| #[trigger] final(self).has_layer(oid) implies oid == id || old(self).has_layer(oid) by {
                let k = final(self).layer_k(oid);
                if k != pk {
                    let ok = if k < pk {
                        k
                    } else {
                        k - 1
                    };
                    assert(olds[ok].0 == oid);
                }
            }
        }
    }

    /// Resolves styles from all layers for the given interval, updating
    /// the merged style spans. With no layers registered the merged map
    /// is left untouched; the caller is responsible for having already
    /// defaulted it.
    fn resolve_styles(&mut self, iv: Interval)
        requires
            old(self).layers_ok(),
            iv.wf(),
            iv.end <= old(self).doc_len(),
        ensures
            final(self).layers == old(self).layers,
            final(self).layers_ok(),
            final(self).doc_len() == old(self).doc_len(),
            old(self).layers@.len() == 0 ==> final(self).merged == old(self).merged,
            forall|p: int|
                0 <= p < iv.start ==> #[trigger] final(self).merged.view()[p] == old(self).merged.view()[p],
            forall|p: int|
                iv.end <= p < old(self).doc_len() ==> #[trigger] final(self).merged.view()[p]
                    == old(self).merged.view()[p],
            old(self).layers@.len() > 0 ==> forall|p: int|
                iv.start <= p < iv.end ==> #[trigger] final(self).merged.view()[p] == resolve_at(
                    old(self).layer_styles(),
                    p,
                ),
    {
        if self.layers.len() == 0 {
            return ;
        }
        let ghost views = self.layer_styles();
        let mut resolved = self.layers[0].1.style_spans.subseq(iv);
        proof {
            assert(views.take(1) =~= seq![views[0]]);
            assert forall|q: int| 0 <= q < iv.spec_len() implies #[trigger] resolved.view()[q]
                == resolve_at(views.take(1), iv.start + q) by {
                assert(resolve_at(views.take(1), iv.start + q) == views[0][iv.start + q]);
            }
        }
        let mut k: usize = 1;
        while k < self.layers.len()
            invariant
                self == old(self),
                self.layers_ok(),
                iv.wf(),
                iv.end <= self.doc_len(),
                views == self.layer_styles(),
                1 <= k <= self.layers@.len(),
                resolved.wf(),
                resolved.view().len() == iv.spec_len(),
                forall|q: int|
                    0 <= q < iv.spec_len() ==> #[trigger] resolved.view()[q] == resolve_at(
                        views.take(k as int),
                        iv.start + q,
                    ),
            decreases self.layers@.len() - k,
        {
            let overlay = self.layers[k].1.style_spans.subseq(iv);
            let combined = resolved.merge(
                &overlay,
                (|a: Style, b: Option<Style>| -> (r: Style)
                    ensures
                        r == combine_overlay(a, b),
                    {
                        match b {
                            Some(x) => a.merge(&x),
                            None => a,
                        }
                    }),
            );
            proof {
                let ki = k as int;
                assert(views.take(ki + 1).drop_last() =~= views.take(ki));
                assert(views.take(ki + 1).last() == views[ki]);
                assert forall|q: int| 0 <= q < iv.spec_len() implies #[trigger] combined.view()[q]
                    == resolve_at(views.take(ki + 1), iv.start + q) by {
                    assert(combined.view()[q] == combine_overlay(
                        resolved.view()[q],
                        Some(overlay.view()[q]),
                    ));
                    assert(overlay.view()[q] == views[ki][iv.start + q]);
                }
            }
            resolved = combined;
            k = k + 1;
        }
        proof {
            assert(views.take(self.layers@.len() as int) =~= views);
        }
        self.merged.edit_coalesced(iv, &resolved);
        proof {
            assert forall|p: int| iv.start <= p < iv.end implies #[trigger] self.merged.view()[p]
                == resolve_at(old(self).layer_styles(), p) by {
                assert(self.merged.view()[p] == resolved.view()[p - iv.start]);
            }
            assert forall|p: int|
                iv.end <= p < old(self).doc_len() implies #[trigger] self.merged.view()[p] == old(self).merged.view()[p] by {
                assert(self.merged.view()[p] == old(self).merged.view().skip(iv.end as int)[p
                    - iv.end]);
            }
        }
    }

    /// Adds the provided scope stacks to the lookup tables of the layer
    /// registered under `layer`, creating the layer first when absent.
    /// No merge recomputation: the spans, and so the merged map, do not
    /// change.
    pub fn add_scopes(&mut self, layer: u64, scopes: Vec<Vec<String>>, resolver: &StyleResolver)
        requires
            old(self).wf(),
            old(self).layers@.len() < usize::MAX,
            old(self).stack_count(layer) + scopes@.len() <= usize::MAX,
        ensures
            final(self).wf(),
            final(self).doc_len() == old(self).doc_len(),
            final(self).merged == old(self).merged,
            final(self).has_layer(layer),
            final(self).stack_count(layer) == old(self).stack_count(layer) + scopes@.len(),
            old(self).has_layer(layer) ==> final(self).layer_at(layer).name_lookup@ == old(self).layer_at(layer).name_lookup@ + scopes@,
            !old(self).has_layer(layer) ==> final(self).layer_at(layer).name_lookup@
                == Seq::<Vec<String>>::empty() + scopes@,
            old(self).has_layer(layer) ==> final(self).layer_at(layer).scope_spans == old(self).layer_at(layer).scope_spans,
            forall|oid: u64|
                oid != layer && #[trigger] old(self).has_layer(oid) ==> final(self).has_layer(oid)
                    && final(self).layer_at(oid) == old(self).layer_at(oid),
    {
        self.create_if_missing(layer);
        let ghost mid = *self;
        let pos = self.layer_pos(layer);
        proof {
            self.lemma_pos_of_present(layer, pos as int);
        }
        let mut entry = self.layers.remove(pos);
        entry.1.add_scopes(scopes, resolver);
        self.layers.insert(pos, entry);
        proof {
            let pk = pos as int;
            assert(self.layers@ =~= mid.layers@.update(pk, self.layers@[pk]));
            assert(self.layers@[pk].0 == layer);
            self.lemma_id_unique(self.layer_k(layer), pk);
            assert(self.layer_styles() =~= mid.layer_styles());
            assert forall|oid: u64|
                oid != layer && #[trigger] old(self).has_layer(oid) implies final(self).has_layer(oid) && final(self).layer_at(oid) == old(self).layer_at(oid) by {
                let k = mid.layer_k(oid);
                assert(mid.layers@[k].0 == oid);
                assert(k != pk);
                assert(self.layers@[k].0 == oid);
                self.lemma_id_unique(self.layer_k(oid), k);
            }
        }
    }

    /// The slot a registered identifier is stored in is the one the
    /// search returns.
    proof fn lemma_pos_of_present(self, id: u64, pos: int)
        requires
            self.layers_ok(),
            self.has_layer(id),
            0 <= pos <= self.layers@.len(),
            forall|k: int| 0 <= k < pos ==> (#[trigger] self.layers@[k]).0 < id,
            pos < self.layers@.len() ==> self.layers@[pos].0 >= id,
        ensures
            pos < self.layers@.len(),
            self.layers@[pos].0 == id,
            self.layer_k(id) == pos,
    {
        let k = self.layer_k(id);
        assert(self.layers@[k].0 == id);
        if k < pos {
            assert(self.layers@[k].0 < id);
        }
        if k > pos {
            assert(self.layers@[pos].0 < self.layers@[k].0);
        }
    }

    /// Updates the scope spans of the layer registered under `layer`
    /// (creating it first when absent) over `iv`, then recomputes the
    /// merged map for exactly that interval.
    pub fn update_layer(&mut self, layer: u64, iv: Interval, spans: &SpanMap<Option<u32>>)
        requires
            old(self).wf(),
            old(self).layers@.len() < usize::MAX,
            iv.wf(),
            iv.end <= old(self).doc_len(),
            spans.wf(),
            spans.view().len() == iv.spec_len(),
            forall|p: int|
                0 <= p < spans.view().len() ==> index_valid(
                    #[trigger] spans.view()[p],
                    old(self).stack_count(layer),
                ),
        ensures
            final(self).wf(),
            final(self).doc_len() == old(self).doc_len(),
            final(self).has_layer(layer),
            final(self).layer_at(layer).scope_spans.view().subrange(
                iv.start as int,
                iv.end as int,
            ) =~= spans.view(),
            old(self).has_layer(layer) ==> forall|p: int|
                0 <= p < old(self).doc_len() && !(iv.start <= p < iv.end)
                    ==> #[trigger] final(self).layer_at(layer).scope_spans.view()[p] == old(self).layer_at(layer).scope_spans.view()[p],
            !old(self).has_layer(layer) ==> forall|p: int|
                0 <= p < old(self).doc_len() && !(iv.start <= p < iv.end)
                    ==> #[trigger] final(self).layer_at(layer).scope_spans.view()[p] is None,
            forall|oid: u64|
                oid != layer && #[trigger] old(self).has_layer(oid) ==> final(self).has_layer(oid)
                    && final(self).layer_at(oid) == old(self).layer_at(oid),
            forall|p: int|
                0 <= p < old(self).doc_len() && !(iv.start <= p < iv.end) ==> #[trigger] final(self).merged.view()[p] == old(self).merged.view()[p],
            forall|p: int|
                iv.start <= p < iv.end ==> #[trigger] final(self).merged.view()[p] == resolve_at(
                    final(self).layer_styles(),
                    p,
                ),
    {
        self.create_if_missing(layer);
        let ghost mid = *self;
        let pos = self.layer_pos(layer);
        proof {
            self.lemma_pos_of_present(layer, pos as int);
            assert(mid.layer_at(layer).style_lookup@.len() == mid.stack_count(layer));
            if !old(self).has_layer(layer) {
                assert(mid.stack_count(layer) == 0);
            }
            assert(self.doc_len() <= usize::MAX);
        }
        let mut entry = self.layers.remove(pos);
        entry.1.update_scopes(iv, spans);
        self.layers.insert(pos, entry);
        let ghost mid2 = *self;
        proof {
            let pk = pos as int;
            assert(self.layers@ =~= mid.layers@.update(pk, self.layers@[pk]));
            assert(self.layers@[pk].0 == layer);
            assert(self.layers@[pk].1.spec_len() == mid.doc_len());
            assert(self.layers_ok());
        }
        self.resolve_styles(iv);
        proof {
            let pk = pos as int;
            self.lemma_id_unique(self.layer_k(layer), pk);
            assert(final(self).layer_at(layer) == mid2.layers@[pk].1);
            assert(final(self).layer_at(layer).scope_spans.view().subrange(
                iv.start as int,
                iv.end as int,
            ) =~= spans.view());
            // outside the interval every layer reads as before, so the
            // untouched merged content still matches the composite there
            assert forall|p: int|
                0 <= p < old(self).doc_len() && !(iv.start <= p < iv.end) implies #[trigger] final(self).merged.view()[p] == old(self).merged.view()[p] by {}
            assert forall|p: int|
                0 <= p < final(self).doc_len() && !(iv.start <= p < iv.end) implies #[trigger] final(self).merged.view()[p] == resolve_at(final(self).layer_styles(), p) by {
                lemma_resolve_at_congruence(final(self).layer_styles(), mid.layer_styles(), p, p);
                assert(final(self).merged.view()[p] == mid.merged.view()[p]);
            }
            assert(final(self).merged_ok());
            assert forall|oid: u64|
                oid != layer && #[trigger] old(self).has_layer(oid) implies final(self).has_layer(oid) && final(self).layer_at(oid) == old(self).layer_at(oid) by {
                let k = mid.layer_k(oid);
                assert(mid.layers@[k].0 == oid);
                assert(k != pk);
                assert(self.layers@[k].0 == oid);
                self.lemma_id_unique(self.layer_k(oid), k);
            }
        }
    }

    /// Replaces `iv` in every registered layer and in the merged map
    /// with default content of length `len`: how a document edit
    /// propagates, before any source re-supplies data for the region.
    pub fn update_all(&mut self, iv: Interval, len: usize)
        requires
            old(self).wf(),
            iv.wf(),
            iv.end <= old(self).doc_len(),
            iv.start + len + (old(self).doc_len() - iv.end) <= usize::MAX,
        ensures
            final(self).wf(),
            final(self).doc_len() == old(self).doc_len() - iv.spec_len() + len,
            final(self).merged.view() =~= old(self).merged.view().take(iv.start as int)
                + Seq::new(len as nat, |i: int| Style::default_spec()) + old(self).merged.view().skip(iv.end as int),
            forall|p: int|
                iv.start <= p < iv.start + len ==> #[trigger] final(self).merged.view()[p]
                    == Style::default_spec(),
            final(self).layers@.len() == old(self).layers@.len(),
            forall|j: int|
                0 <= j < old(self).layers@.len() ==> (#[trigger] final(self).layers@[j]).0 == old(self).layers@[j].0 && cleared_over(
                    old(self).layers@[j].1,
                    final(self).layers@[j].1,
                    iv,
                    len as nat,
                ),
    {
        let ghost olds = *self;
        let repl_sty: SpanMap<Style> = SpanMap::uniform(len, Style::default());
        proof {
            assert(olds.merged.view().len() == olds.merged.total);
        }
        self.merged.edit_coalesced(iv, &repl_sty);
        let ghost m1 = self.merged;
        let repl: SpanMap<Option<u32>> = SpanMap::uniform(len, None);
        let mut k: usize = 0;
        while k < self.layers.len()
            invariant
                iv.wf(),
                iv.end <= olds.doc_len(),
                iv.start + len + (olds.doc_len() - iv.end) <= usize::MAX,
                olds.layers_ok(),
                olds.merged_ok(),
                repl.wf(),
                repl.view() =~= Seq::new(len as nat, |i: int| None::<u32>),
                self.merged == m1,
                m1.wf(),
                m1.coalesced(),
                m1.view() =~= olds.merged.view().take(iv.start as int) + Seq::new(
                    len as nat,
                    |i: int| Style::default_spec(),
                ) + olds.merged.view().skip(iv.end as int),
                self.layers@.len() == olds.layers@.len(),
                0 <= k <= self.layers@.len(),
                forall|j: int|
                    k <= j < self.layers@.len() ==> #[trigger] self.layers@[j] == olds.layers@[j],
                forall|j: int|
                    0 <= j < k ==> (#[trigger] self.layers@[j]).0 == olds.layers@[j].0
                        && cleared_over(olds.layers@[j].1, self.layers@[j].1, iv, len as nat),
            decreases self.layers@.len() - k,
        {
            let ghost pre = self.layers@;
            let mut entry = self.layers.remove(k);
            proof {
                assert(entry == olds.layers@[k as int]);
                assert(entry.1.wf());
                assert(entry.1.spec_len() == olds.doc_len());
            }
            entry.1.update_scopes(iv, &repl);
            self.layers.insert(k, entry);
            proof {
                let kk = k as int;
                assert(self.layers@ =~= pre.update(kk, self.layers@[kk]));
                let o = olds.layers@[kk].1;
                let n = self.layers@[kk].1;
                assert(n.style_spans.view() =~= o.style_spans.view().take(iv.start as int)
                    + Seq::new(len as nat, |i: int| Style::default_spec())
                    + o.style_spans.view().skip(iv.end as int));
                assert(cleared_over(o, n, iv, len as nat));
            }
            k = k + 1;
        }
        proof {
            assert(self.layers_ok());
            assert(iv.start + len <= self.doc_len());
        }
        let iv2 = Interval::new(iv.start, iv.start + len);
        let ghost mid = *self;
        self.resolve_styles(iv2);
        proof {
            let nl = self.layers@.len() as int;
            assert forall|p: int|
                iv.start <= p < iv.start + len implies #[trigger] self.merged.view()[p]
                    == Style::default_spec() by {
                if nl > 0 {
                    assert forall|j: int| 0 <= j < nl implies #[trigger] mid.layer_styles()[j][p]
                        == Style::default_spec() by {
                        assert(cleared_over(olds.layers@[j].1, mid.layers@[j].1, iv, len as nat));
                    }
                    lemma_resolve_at_all_default(mid.layer_styles(), p);
                } else {
                    assert(self.merged.view()[p] == m1.view()[p]);
                }
            }
            assert(final(self).merged.view() =~= olds.merged.view().take(iv.start as int)
                + Seq::new(len as nat, |i: int| Style::default_spec()) + olds.merged.view().skip(
                iv.end as int,
            ));
            assert forall|p: int|
                0 <= p < final(self).doc_len() && !(iv.start <= p < iv.start + len)
                    implies #[trigger] final(self).merged.view()[p] == resolve_at(
                    final(self).layer_styles(),
                    p,
                ) || final(self).layers@.len() == 0 by {
                if nl > 0 {
                    let q = if p < iv.start {
                        p
                    } else {
                        p + iv.end - iv.start - len
                    };
                    assert(final(self).merged.view()[p] == olds.merged.view()[q]);
                    assert forall|j: int| 0 <= j < nl implies #[trigger] final(self).layer_styles()[j][p] == olds.layer_styles()[j][q] by {
                        assert(cleared_over(olds.layers@[j].1, final(self).layers@[j].1, iv, len as nat));
                    }
                    lemma_resolve_at_congruence(
                        final(self).layer_styles(),
                        olds.layer_styles(),
                        p,
                        q,
                    );
                }
            }
            if nl == 0 {
                assert forall|p: int| 0 <= p < final(self).doc_len() implies #[trigger] final(self).merged.view()[p] == Style::default_spec() by {
                    if !(iv.start <= p < iv.start + len) {
                        let q = if p < iv.start {
                            p
                        } else {
                            p + iv.end - iv.start - len
                        };
                        assert(final(self).merged.view()[p] == olds.merged.view()[q]);
                    }
                }
            }
            assert(final(self).merged_ok());
        }
    }

    /// Removes the layer registered under `id`, handing it back; a
    /// missing identifier is a no-op. On removal the merged map is
    /// recomputed over the entire document, since any sub-range may
    /// have depended exclusively on the removed layer.
    pub fn remove_layer(&mut self, id: u64) -> (r: Option<ScopeLayer>)
        requires
            old(self).wf(),
        ensures
            final(self).wf(),
            final(self).doc_len() == old(self).doc_len(),
            !old(self).has_layer(id) ==> r is None && *final(self) == *old(self),
            old(self).has_layer(id) ==> {
                &&& r == Some(old(self).layer_at(id))
                &&& final(self).layers@ =~= old(self).layers@.remove(old(self).layer_k(id))
                &&& !final(self).has_layer(id)
            },
    {
        let pos = self.layer_pos(id);
        if pos < self.layers.len() && self.layers[pos].0 == id {
            proof {
                assert(old(self).has_layer(id));
                old(self).lemma_pos_of_present(id, pos as int);
            }
            let entry = self.layers.remove(pos);
            let len = self.merged.len();
            self.merged = SpanMap::uniform(len, Style::default());
            proof {
                assert(self.layers_ok());
            }
            let iv = Interval::new(0, len);
            self.resolve_styles(iv);
            proof {
                assert(final(self).merged_ok());
                assert forall|k: int|
                    0 <= k < final(self).layers@.len() implies (#[trigger] final(self).layers@[k]).0 != id by {
                    let pk = pos as int;
                    let ok = if k < pk {
                        k
                    } else {
                        k + 1
                    };
                    assert(final(self).layers@[k] == old(self).layers@[ok]);
                }
            }
            Some(entry.1)
        } else {
            proof {
                if old(self).has_layer(id) {
                    old(self).lemma_pos_of_present(id, pos as int);
                }
            }
            None
        }
    }

    /// Re-resolves every layer's stacks against the new theme, then
    /// fully recomputes the merged map. Scope spans and stack lookups
    /// are untouched: only resolved styles change.
    pub fn theme_changed(&mut self, resolver: &StyleResolver)
        requires
            old(self).wf(),
        ensures
            final(self).wf(),
            final(self).doc_len() == old(self).doc_len(),
            final(self).layers@.len() == old(self).layers@.len(),
            forall|j: int|
                0 <= j < old(self).layers@.len() ==> {
                    &&& (#[trigger] final(self).layers@[j]).0 == old(self).layers@[j].0
                    &&& final(self).layers@[j].1.scope_spans == old(self).layers@[j].1.scope_spans
                    &&& final(self).layers@[j].1.stack_lookup == old(self).layers@[j].1.stack_lookup
                    &&& final(self).layers@[j].1.name_lookup == old(self).layers@[j].1.name_lookup
                    &&& final(self).layers@[j].1.style_lookup@.len() == old(self).layers@[j].1.style_lookup@.len()
                },
    {
        let ghost olds = *self;
        let mut k: usize = 0;
        while k < self.layers.len()
            invariant
                olds.layers_ok(),
                self.merged == olds.merged,
                self.layers@.len() == olds.layers@.len(),
                0 <= k <= self.layers@.len(),
                forall|j: int|
                    k <= j < self.layers@.len() ==> #[trigger] self.layers@[j] == olds.layers@[j],
                forall|j: int|
                    0 <= j < k ==> {
                        &&& (#[trigger] self.layers@[j]).0 == olds.layers@[j].0
                        &&& self.layers@[j].1.wf()
                        &&& self.layers@[j].1.spec_len() == olds.layers@[j].1.spec_len()
                        &&& self.layers@[j].1.scope_spans == olds.layers@[j].1.scope_spans
                        &&& self.layers@[j].1.stack_lookup == olds.layers@[j].1.stack_lookup
                        &&& self.layers@[j].1.name_lookup == olds.layers@[j].1.name_lookup
                        &&& self.layers@[j].1.style_lookup@.len()
                            == olds.layers@[j].1.style_lookup@.len()
                    },
            decreases self.layers@.len() - k,
        {
            let ghost pre = self.layers@;
            let mut entry = self.layers.remove(k);
            proof {
                assert(entry == olds.layers@[k as int]);
                assert(entry.1.wf());
            }
            entry.1.theme_changed(resolver);
            self.layers.insert(k, entry);
            proof {
                assert(self.layers@ =~= pre.update(k as int, self.layers@[k as int]));
            }
            k = k + 1;
        }
        let len = self.merged.len();
        self.merged = SpanMap::uniform(len, Style::default());
        proof {
            assert(self.layers_ok());
        }
        let iv = Interval::new(0, len);
        self.resolve_styles(iv);
        proof {
            assert(final(self).merged_ok());
        }
    }
}

/// How a document edit reshapes one layer: the lookup tables are kept,
/// and `iv` is replaced in both span maps by default content of length
/// `len`.
pub open spec fn cleared_over(o: ScopeLayer, n: ScopeLayer, iv: Interval, len: nat) -> bool {
    &&& n.wf()
    &&& n.stack_lookup == o.stack_lookup
    &&& n.style_lookup == o.style_lookup
    &&& n.name_lookup == o.name_lookup
    &&& n.scope_spans.view() =~= o.scope_spans.view().take(iv.start as int) + Seq::new(
        len,
        |i: int| None::<u32>,
    ) + o.scope_spans.view().skip(iv.end as int)
    &&& n.style_spans.view() =~= o.style_spans.view().take(iv.start as int) + Seq::new(
        len,
        |i: int| Style::default_spec(),
    ) + o.style_spans.view().skip(iv.end as int)
}


impl Default for Scopes {
    /// A collection over the empty document, with no layers.
    fn default() -> (r: Scopes)
        ensures
            r.wf(),
            r.doc_len() == 0,
            r.layers@.len() == 0,
    {
        Scopes::new()
    }
}

/// For every registered layer and for the merged map, span-map length
/// equals the current document length, at every observable point.
pub proof fn lemma_lengths_in_lockstep(s: Scopes)
    requires
        s.wf(),
    ensures
        s.merged.view().len() == s.doc_len(),
        forall|k: int|
            0 <= k < s.layers@.len() ==> (#[trigger] s.layers@[k]).1.scope_spans.view().len()
                == s.doc_len() && s.layers@[k].1.style_spans.view().len() == s.doc_len(),
{
}

/// The merged map is determined by the layers' style spans alone: two
/// collections whose layers read the same styles at every position
/// carry the same merged content. In particular, resolving the same
/// unedited interval twice changes nothing.
pub proof fn lemma_merged_determined(a: Scopes, b: Scopes)
    requires
        a.wf(),
        b.wf(),
        a.doc_len() == b.doc_len(),
        a.layers@.len() == b.layers@.len(),
        forall|k: int, p: int|
            0 <= k < a.layers@.len() && 0 <= p < a.doc_len() ==> #[trigger] a.layer_styles()[k][p]
                == b.layer_styles()[k][p],
    ensures
        forall|p: int| 0 <= p < a.doc_len() ==> a.merged.view()[p] == b.merged.view()[p],
{
    assert forall|p: int| 0 <= p < a.doc_len() implies a.merged.view()[p] == b.merged.view()[p] by {
        if a.layers@.len() > 0 {
            assert forall|k: int| 0 <= k < a.layers@.len() implies #[trigger] a.layer_styles()[k][p]
                == b.layer_styles()[k][p] by {}
            lemma_resolve_at_congruence(a.layer_styles(), b.layer_styles(), p, p);
        }
    }
}

/// The merged map is kept in canonical run-length form, so the
/// per-position agreement of `lemma_merged_determined` is in fact
/// bit-identical agreement: the two merged maps hold the same runs with
/// the same values and the same total. Resolving the same unedited
/// interval twice therefore yields bit-identical merged output.
pub proof fn lemma_merged_bit_identical(a: Scopes, b: Scopes)
    requires
        a.wf(),
        b.wf(),
        a.doc_len() == b.doc_len(),
        a.layers@.len() == b.layers@.len(),
        forall|k: int, p: int|
            0 <= k < a.layers@.len() && 0 <= p < a.doc_len() ==> #[trigger] a.layer_styles()[k][p]
                == b.layer_styles()[k][p],
    ensures
        a.merged.spans@ == b.merged.spans@,
        a.merged.total == b.merged.total,
{
    lemma_merged_determined(a, b);
    assert(a.merged.view() =~= b.merged.view());
    crate::spans::lemma_canonical_runs(a.merged, b.merged);
}

/// Removal correctness: after removing a layer, the merged content
/// equals that of a collection that had only the remaining layers from
/// the start.
pub proof fn lemma_removal_correctness(before: Scopes, id: u64, after: Scopes, fresh: Scopes)
    requires
        before.wf(),
        after.wf(),
        fresh.wf(),
        before.has_layer(id),
        after.layers@ == before.layers@.remove(before.layer_k(id)),
        after.doc_len() == before.doc_len(),
        fresh.doc_len() == after.doc_len(),
        fresh.layers@.len() == after.layers@.len(),
        forall|k: int, p: int|
            0 <= k < after.layers@.len() && 0 <= p < after.doc_len()
                ==> #[trigger] fresh.layer_styles()[k][p] == after.layer_styles()[k][p],
    ensures
        forall|p: int| 0 <= p < after.doc_len() ==> after.merged.view()[p] == fresh.merged.view()[p],
        after.merged.spans@ == fresh.merged.spans@,
{
    lemma_merged_determined(after, fresh);
    lemma_merged_bit_identical(after, fresh);
}

/// The compression invariant as a law: no layer's style spans ever
/// hold two adjacent runs with equal style, so adjacent sub-ranges
/// that resolve to identical styles, even via different scope stacks,
/// come out as one wider run.
pub proof fn lemma_style_spans_compressed(s: Scopes, k: int)
    requires
        s.wf(),
        0 <= k < s.layers@.len(),
    ensures
        s.layers@[k].1.style_spans.coalesced(),
{
}

/// With layers composited in ascending identifier order, the last
/// layer's styles are overlaid on the composite of the earlier ones:
/// a numerically larger identifier always paints on top.
pub proof fn lemma_later_layer_on_top(views: Seq<Seq<Style>>, p: int)
    requires
        views.len() >= 2,
    ensures
        resolve_at(views, p) == resolve_at(views.drop_last(), p).merge_spec(views.last()[p]),
{
}

/// One layer's diagnostic dump over an interval: the runs of stored
/// scope indices and of resolved styles, with offsets relative to the
/// interval's start.
pub struct LayerDump {
    pub id: u64,
    pub scopes: Vec<(usize, usize, Option<u32>)>,
    pub styles: Vec<(usize, usize, Style)>,
}

impl Scopes {
    /// Collects scope and style information for the given interval,
    /// layer by layer, for diagnostic display; a layer holding no scope
    /// over the interval is skipped. Debug-only: not part of the
    /// compatibility surface.
    pub fn debug_print_spans(&self, iv: Interval) -> (r: Vec<LayerDump>)
        requires
            self.wf(),
            iv.wf(),
            iv.end <= self.doc_len(),
        ensures
            r@.len() <= self.layers@.len(),
    {
        let mut out: Vec<LayerDump> = Vec::new();
        let mut k: usize = 0;
        while k < self.layers.len()
            invariant
                self.wf(),
                iv.wf(),
                iv.end <= self.doc_len(),
                0 <= k <= self.layers@.len(),
                out@.len() <= k,
            decreases self.layers@.len() - k,
        {
            let sub = self.layers[k].1.scope_spans.subseq(iv);
            let sty = self.layers[k].1.style_spans.subseq(iv);
            if has_any_scope(&sub) {
                let dump = LayerDump {
                    id: self.layers[k].0,
                    scopes: sub.iterate(),
                    styles: sty.iterate(),
                };
                out.push(dump);
            }
            k = k + 1;
        }
        out
    }
}

/// Whether any position of the map carries a scope index at all.
fn has_any_scope(m: &SpanMap<Option<u32>>) -> (r: bool)
    requires
        m.wf(),
    ensures
        r == exists|p: int| 0 <= p < m.view().len() && (#[trigger] m.view()[p]) is Some,
{
    let mut i: usize = 0;
    proof {
        assert(m.spans@.take(0) =~= Seq::<crate::spans::Span<Option<u32>>>::empty());
    }
    while i < m.spans.len()
        invariant
            m.wf(),
            0 <= i <= m.spans@.len(),
            forall|p: int|
                0 <= p < offset_of(m.spans@, i as int) ==> (#[trigger] m.view()[p]) is None,
        decreases m.spans@.len() - i,
    {
        proof {
            lemma_spans_seq_run(m.spans@, i as int);
        }
        if m.spans[i].val.is_some() {
            proof {
                assert(m.view()[offset_of(m.spans@, i as int)] is Some);
            }
            return true;
        }
        i = i + 1;
    }
    proof {
        assert(m.spans@.take(m.spans@.len() as int) =~= m.spans@);
    }
    false
}

} // verus!
