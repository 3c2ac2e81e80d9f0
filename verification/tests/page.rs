use htmldraw::text::decimal_str;
use htmldraw::{classed, Block, HtmlProducer, Style, Tab, Tabs, TableBuilder, TableDrawer};
use htmldraw::resources::Resource;

#[test]
fn decimal_notation() {
    assert_eq!(decimal_str(0), "0");
    assert_eq!(decimal_str(7), "7");
    assert_eq!(decimal_str(10), "10");
    assert_eq!(decimal_str(907), "907");
    assert_eq!(decimal_str(120034), "120034");
}

#[test]
fn classed_wraps() {
    assert_eq!(classed("tag", "x"), "<span class='tag'>x</span>");
}

#[test]
fn style_renders_and_dedups() {
    let s = Style::new("box");
    assert_eq!(s.to_text(), "");
    let s = s.opt("color", "red").opt("margin", "0").opt("color", "blue");
    assert_eq!(s.to_text(), ".box {    color: blue;\n    margin: 0;\n}");
    let d = s.duplicate("box2");
    assert_eq!(d.to_text(), ".box2 {    color: blue;\n    margin: 0;\n}");
}

#[test]
fn block_renders_nested() {
    let b = Block::new("outer")
        .text("head".to_owned())
        .sub(Block::new("inner").text("x".to_owned()))
        .sub(
            Block::new("clicky")
                .id("i1".to_owned())
                .onclick("go();".to_owned()),
        );
    assert_eq!(
        b.to_text(),
        "<div class='outer'>head<div class='inner'>x</div>\n\
         <div id='i1' class='clicky' onclick='go();'></div>\n</div>"
    );
    let mut parent = Block::new("p");
    parent.sub_mut(Block::new("q"));
    assert_eq!(parent.to_text(), "<div class='p'><div class='q'></div>\n</div>");
}

#[test]
fn page_assembles() {
    let mut page = HtmlProducer::default()
        .with_title("Demo")
        .with_styles(&".a { color: red; }".to_owned())
        .with_scripts(&"let x = 1;".to_owned());
    page.push_style(Style::new("b").opt("margin", "0"));
    page.push_script("boot();");
    page.push_block(Block::new("main").text("hello".to_owned()));
    let html = page.to_text();
    assert!(html.starts_with("<html>\n<head>\n<title>\nDemo\n</title>\n"));
    assert!(html.contains("<style>\n.a { color: red; }\n.b {    margin: 0;\n}\n\n</style>"));
    assert!(html.contains("<script>\nlet x = 1;\nboot();\n\n</script>"));
    assert!(html.contains("<body>\n<div class='main'>hello</div>\n\n</body>"));
    assert!(html.ends_with("</html>\n"));
}

#[test]
fn page_collects_used_table_styles() {
    let mut tb = TableBuilder::new();
    let t = tb.table_fixed("tbl", 50);
    let row = tb.create_row_fixed(t, &[None]).unwrap();
    let mut page = HtmlProducer::default();
    tb.row(row, "r0", vec!["v".to_owned()], page.drawer()).unwrap();
    page.add_tables(&tb);
    let html = page.to_text();
    assert!(html.contains(".tbl_r0_c0 { width: 42px; }\n"));

    let mut empty_page = HtmlProducer::default();
    empty_page.add_tables(&tb);
    assert!(!empty_page.to_text().contains("tbl_r0_c0"));
}

#[test]
fn tabs_render() {
    let mut page = HtmlProducer::default();
    let mut tabs = Tabs::new(
        &mut page,
        vec![
            Tab { name: "Home".to_owned(), count: 0, active: false, href: "home".to_owned() },
            Tab { name: "Mail".to_owned(), count: 3, active: false, href: "mail".to_owned() },
        ],
    );
    tabs.set_active("Home");
    let text = tabs.blocks().to_text();
    assert!(text.starts_with("<div class='tabs'><div class='tab_row'>"));
    assert!(text.contains(
        "<div class='tab_button_active'>Home<span class='tab_count_empty'>&nbsp;</span></div>"
    ));
    assert!(text.contains(
        "<div class='tab_button' onclick='tabClicked(\"mail\");'>Mail\
         <span class='tab_count'>3</span></div>"
    ));
    assert!(text.contains("<div class='tab_finish'><img width=1 height=1></div>"));
}

#[test]
fn resource_takes_newest_update() {
    let mut fixed = Resource::fixed("static".to_owned());
    assert_eq!(fixed.get(), "static");
    assert_eq!(fixed.get(), "static");

    let (tx, rx) = std::sync::mpsc::channel();
    let mut live = Resource::subscribed("v1".to_owned(), rx);
    assert_eq!(live.get(), "v1");
    tx.send("v2".to_owned()).unwrap();
    tx.send("v3".to_owned()).unwrap();
    assert_eq!(live.get(), "v3");
    drop(tx);
    assert_eq!(live.get(), "v3");
}

#[test]
fn drawer_starts_empty() {
    let tb = TableBuilder::new();
    let drawer = TableDrawer::default();
    assert_eq!(tb.styles(&drawer), "");
}
