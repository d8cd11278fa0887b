use mdbook_obgraph::render::interactivity::js;
use mdbook_obgraph::render::style::css;

#[test]
fn css_styles_the_graph_root() {
    let c = css();
    assert!(c.contains(".obgraph {"));
    assert!(c.contains(".obgraph-domain-bg"));
    assert!(c.trim_end().ends_with('}'));
}

#[test]
fn js_is_a_self_invoking_function() {
    let j = js();
    assert!(j.starts_with("(function() {"));
    assert!(j.ends_with("})();"));
    assert!(j.contains("closest('.obgraph')"));
}
