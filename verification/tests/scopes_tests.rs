use std::str::FromStr;

use syntect::highlighting::{Color, FontStyle, ScopeSelectors, StyleModifier, Theme, ThemeItem};

use scope_layers::interval::Interval;
use scope_layers::layers::Scopes;
use scope_layers::resolver::StyleResolver;
use scope_layers::spans::SpanMap;
use scope_layers::style::{Style, StyleParts};

const RED: Color = Color { r: 255, g: 0, b: 0, a: 255 };
const BLUE: Color = Color { r: 0, g: 0, b: 255, a: 255 };
const GREEN: Color = Color { r: 0, g: 255, b: 0, a: 255 };

fn item(selector: &str, fg: Option<Color>, font: Option<FontStyle>) -> ThemeItem {
    ThemeItem {
        scope: ScopeSelectors::from_str(selector).unwrap(),
        style: StyleModifier { foreground: fg, background: None, font_style: font },
    }
}

fn test_theme() -> Theme {
    let mut theme = Theme::default();
    theme.scopes.push(item("red", Some(RED), None));
    theme.scopes.push(item("blue", Some(BLUE), None));
    theme.scopes.push(item("green", Some(GREEN), None));
    theme.scopes.push(item("bold", None, Some(FontStyle::BOLD)));
    theme.scopes.push(item("keyword", Some(RED), None));
    theme
}

fn resolver() -> StyleResolver {
    StyleResolver::new(test_theme())
}

fn stacks(names: &[&[&str]]) -> Vec<Vec<String>> {
    names.iter().map(|stack| stack.iter().map(|s| s.to_string()).collect()).collect()
}

fn index_spans(runs: &[(usize, Option<u32>)]) -> SpanMap<Option<u32>> {
    let mut m = SpanMap::new();
    for &(len, val) in runs {
        m.push_span(len, val);
    }
    m
}

fn style_runs(m: &SpanMap<Style>) -> Vec<(usize, Style)> {
    m.spans.iter().map(|sp| (sp.len, sp.val)).collect()
}

fn same_style_runs(a: &SpanMap<Style>, b: &SpanMap<Style>) -> bool {
    a.total == b.total && a.spans.len() == b.spans.len()
        && a.spans.iter().zip(b.spans.iter()).all(|(x, y)| x.len == y.len && x.val.same(&y.val))
}

const PACKED_RED: u32 = 0xFFFF0000;
const PACKED_BLUE: u32 = 0xFF0000FF;
const PACKED_GREEN: u32 = 0xFF00FF00;

#[test]
fn lengths_stay_in_lockstep_with_document() {
    let r = resolver();
    let mut s = Scopes::new();
    s.update_all(Interval::new(0, 0), 10);
    s.add_scopes(1, stacks(&[&["red"]]), &r);
    s.update_layer(1, Interval::new(0, 4), &index_spans(&[(4, Some(0))]));
    s.add_scopes(7, stacks(&[&["bold"]]), &r);
    s.update_layer(7, Interval::new(2, 10), &index_spans(&[(8, Some(0))]));
    assert_eq!(s.merged.total, 10);
    for (_, layer) in s.layers.iter() {
        assert_eq!(layer.scope_spans.total, 10);
        assert_eq!(layer.style_spans.total, 10);
    }
    s.update_all(Interval::new(3, 8), 2);
    assert_eq!(s.merged.total, 7);
    for (_, layer) in s.layers.iter() {
        assert_eq!(layer.scope_spans.total, 7);
        assert_eq!(layer.style_spans.total, 7);
    }
}

#[test]
fn update_all_yields_default_style_over_the_region() {
    let r = resolver();
    let mut s = Scopes::new();
    s.update_all(Interval::new(0, 0), 10);
    s.add_scopes(1, stacks(&[&["red"]]), &r);
    s.update_layer(1, Interval::new(0, 10), &index_spans(&[(10, Some(0))]));
    s.update_all(Interval::new(2, 6), 4);
    assert_eq!(s.merged.total, 10);
    let middle = s.get_merged().subseq(Interval::new(2, 6));
    for (len, val) in style_runs(&middle) {
        assert!(len > 0);
        assert!(val.same(&Style::default()));
    }
    let grown = {
        let mut t = Scopes::new();
        t.update_all(Interval::new(0, 0), 4);
        t
    };
    assert_eq!(grown.merged.total, 4);
}

#[test]
fn resolving_the_same_interval_twice_is_identical() {
    let r = resolver();
    let mut s = Scopes::new();
    s.update_all(Interval::new(0, 0), 10);
    s.add_scopes(1, stacks(&[&["red"], &["bold"]]), &r);
    let spans = index_spans(&[(3, Some(0)), (4, Some(1)), (3, None)]);
    s.update_layer(1, Interval::new(0, 10), &spans);
    let first = s.get_merged().subseq(Interval::new(0, 10));
    s.update_layer(1, Interval::new(0, 10), &spans);
    let second = s.get_merged().subseq(Interval::new(0, 10));
    assert!(same_style_runs(&first, &second));
}

#[test]
fn adjacent_ranges_with_equal_styles_coalesce() {
    let r = resolver();
    let mut s = Scopes::new();
    s.update_all(Interval::new(0, 0), 10);
    // two different stacks that resolve to the same style under the theme
    s.add_scopes(1, stacks(&[&["source.x", "red"], &["red", "nothing.matches.this"]]), &r);
    s.update_layer(1, Interval::new(0, 10), &index_spans(&[(5, Some(0)), (5, Some(1))]));
    let layer = &s.layers[0].1;
    assert_eq!(layer.scope_spans.spans.len(), 2);
    assert_eq!(layer.style_spans.spans.len(), 1);
    assert_eq!(layer.style_spans.spans[0].len, 10);
    assert_eq!(layer.style_spans.spans[0].val.fg_color, Some(PACKED_RED));
}

#[test]
fn later_source_overlays_earlier_one() {
    let r = resolver();
    let mut s = Scopes::new();
    s.update_all(Interval::new(0, 0), 10);
    s.add_scopes(1, stacks(&[&["red"]]), &r);
    s.update_layer(1, Interval::new(0, 10), &index_spans(&[(10, Some(0))]));
    s.add_scopes(2, stacks(&[&["bold"], &["blue"]]), &r);
    s.update_layer(2, Interval::new(0, 10), &index_spans(&[(10, Some(0))]));
    // bold sets no color: red shows through, weight comes from source 2
    let merged = style_runs(s.get_merged());
    assert!(merged.iter().all(|(_, v)| v.fg_color == Some(PACKED_RED)));
    assert!(merged.iter().all(|(_, v)| v.weight == Some(700)));
    // blue sets a color: it overrides red
    s.update_layer(2, Interval::new(0, 10), &index_spans(&[(10, Some(1))]));
    let merged = style_runs(s.get_merged());
    assert!(merged.iter().all(|(_, v)| v.fg_color == Some(PACKED_BLUE)));
}

#[test]
fn removing_a_source_matches_never_having_registered_it() {
    let r = resolver();
    let mut with_both = Scopes::new();
    with_both.update_all(Interval::new(0, 0), 10);
    with_both.add_scopes(1, stacks(&[&["red"]]), &r);
    with_both.update_layer(1, Interval::new(0, 6), &index_spans(&[(6, Some(0))]));
    with_both.add_scopes(2, stacks(&[&["bold"]]), &r);
    with_both.update_layer(2, Interval::new(3, 10), &index_spans(&[(7, Some(0))]));
    let removed = with_both.remove_layer(1);
    assert!(removed.is_some());

    let mut only_b = Scopes::new();
    only_b.update_all(Interval::new(0, 0), 10);
    only_b.add_scopes(2, stacks(&[&["bold"]]), &r);
    only_b.update_layer(2, Interval::new(3, 10), &index_spans(&[(7, Some(0))]));

    assert!(same_style_runs(with_both.get_merged(), only_b.get_merged()));
}

#[test]
fn removing_an_unknown_source_is_a_no_op() {
    let mut s = Scopes::new();
    s.update_all(Interval::new(0, 0), 5);
    assert!(s.remove_layer(3).is_none());
    assert_eq!(s.merged.total, 5);
}

#[test]
fn end_to_end_keyword_gets_the_themes_style() {
    let r = resolver();
    let mut s = Scopes::new();
    s.update_all(Interval::new(0, 0), 5);
    s.add_scopes(1, stacks(&[&["source.x", "keyword"]]), &r);
    s.update_layer(1, Interval::new(0, 5), &index_spans(&[(5, Some(0))]));
    let merged = style_runs(s.get_merged());
    assert_eq!(merged.len(), 1);
    let (len, style) = &merged[0];
    assert_eq!(*len, 5);
    assert_eq!(style.fg_color, Some(PACKED_RED));
    assert_eq!(style.bg_color, None);
    assert_eq!(style.weight, None);
}

#[test]
fn theme_change_keeps_scopes_and_remaps_styles() {
    let r = resolver();
    let mut s = Scopes::new();
    s.update_all(Interval::new(0, 0), 8);
    s.add_scopes(1, stacks(&[&["red"]]), &r);
    s.update_layer(1, Interval::new(0, 8), &index_spans(&[(4, Some(0)), (4, None)]));
    let names_before = s.layers[0].1.name_lookup.clone();
    let scope_runs_before: Vec<(usize, Option<u32>)> =
        s.layers[0].1.scope_spans.spans.iter().map(|sp| (sp.len, sp.val)).collect();

    // a new theme resolves the same scope name to green
    let mut new_theme = Theme::default();
    new_theme.scopes.push(item("red", Some(GREEN), None));
    let r2 = StyleResolver::new(new_theme);
    s.theme_changed(&r2);

    let scope_runs_after: Vec<(usize, Option<u32>)> =
        s.layers[0].1.scope_spans.spans.iter().map(|sp| (sp.len, sp.val)).collect();
    assert_eq!(names_before, s.layers[0].1.name_lookup);
    assert_eq!(scope_runs_before, scope_runs_after);
    let merged = style_runs(s.get_merged());
    assert_eq!(merged[0].1.fg_color, Some(PACKED_GREEN));
    assert_eq!(s.merged.total, 8);
}

#[test]
fn unparsable_scope_names_are_dropped_not_fatal() {
    let r = resolver();
    let mut s = Scopes::new();
    s.update_all(Interval::new(0, 0), 4);
    // nine atoms: more than a scope can carry, so the name is dropped
    // and the stack resolves with what remains
    s.add_scopes(1, stacks(&[&["a.b.c.d.e.f.g.h.i", "red"]]), &r);
    s.update_layer(1, Interval::new(0, 4), &index_spans(&[(4, Some(0))]));
    let layer = &s.layers[0].1;
    assert_eq!(layer.stack_lookup[0].len(), 1);
    assert_eq!(layer.name_lookup[0].len(), 2);
    let merged = style_runs(s.get_merged());
    assert_eq!(merged[0].1.fg_color, Some(PACKED_RED));
}

#[test]
fn add_scopes_alone_changes_no_spans() {
    let r = resolver();
    let mut s = Scopes::new();
    s.update_all(Interval::new(0, 0), 6);
    let before = s.get_merged().subseq(Interval::new(0, 6));
    s.add_scopes(1, stacks(&[&["red"], &["blue"]]), &r);
    assert!(same_style_runs(&before, s.get_merged()));
    assert_eq!(s.layers[0].1.stack_lookup.len(), 2);
    assert_eq!(s.layers[0].1.style_lookup.len(), 2);
}

#[test]
fn debug_dump_skips_layers_without_scopes() {
    let r = resolver();
    let mut s = Scopes::new();
    s.update_all(Interval::new(0, 0), 6);
    s.add_scopes(1, stacks(&[&["red"]]), &r);
    s.add_scopes(2, stacks(&[&["blue"]]), &r);
    s.update_layer(2, Interval::new(0, 3), &index_spans(&[(3, Some(0))]));
    let dumps = s.debug_print_spans(Interval::new(0, 6));
    assert_eq!(dumps.len(), 1);
    assert_eq!(dumps[0].id, 2);
    assert_eq!(dumps[0].scopes, vec![(0usize, 3usize, Some(0u32)), (3, 6, None)]);
}

#[test]
fn packed_colors_follow_the_argb_layout() {
    let parts = StyleParts {
        fg: Some((0x12, 0x34, 0x56, 0x78)),
        bg: None,
        font: Some(5),
    };
    let style = Style::from_parts(parts);
    assert_eq!(style.fg_color, Some(0x78123456));
    assert_eq!(style.bg_color, None);
    assert_eq!(style.weight, Some(700));
    assert_eq!(style.underline, Some(false));
    assert_eq!(style.italic, Some(true));
}

#[test]
fn style_merge_overlays_only_set_attributes() {
    let base = Style {
        fg_color: Some(1),
        bg_color: Some(2),
        weight: None,
        underline: Some(true),
        italic: None,
    };
    let overlay = Style {
        fg_color: Some(9),
        bg_color: None,
        weight: Some(400),
        underline: None,
        italic: None,
    };
    let merged = base.merge(&overlay);
    assert_eq!(merged.fg_color, Some(9));
    assert_eq!(merged.bg_color, Some(2));
    assert_eq!(merged.weight, Some(400));
    assert_eq!(merged.underline, Some(true));
    assert_eq!(merged.italic, None);
}

#[test]
fn creating_a_lower_id_layer_later_keeps_composition_order() {
    let r = resolver();
    let mut s = Scopes::new();
    s.update_all(Interval::new(0, 0), 10);
    s.add_scopes(5, stacks(&[&["red"]]), &r);
    s.update_layer(5, Interval::new(0, 10), &index_spans(&[(10, Some(0))]));
    // a source with a smaller identifier arrives later: it is composited
    // below the existing one, so red still paints on top of blue
    s.add_scopes(2, stacks(&[&["blue"]]), &r);
    s.update_layer(2, Interval::new(0, 10), &index_spans(&[(10, Some(0))]));
    assert_eq!(s.layers[0].0, 2);
    assert_eq!(s.layers[1].0, 5);
    let merged = style_runs(s.get_merged());
    assert!(merged.iter().all(|(_, v)| v.fg_color == Some(PACKED_RED)));
}
