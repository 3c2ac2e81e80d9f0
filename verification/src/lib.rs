//! A small HTML page builder whose heart is a table layout compiler: abstract
//! row/column declarations are compiled once into pixel-exact CSS rules and
//! HTML fragment skeletons, which are then filled with caller values at render
//! time. Around it stand a page assembler (`HtmlProducer` with `Style` and
//! `Block`), a tab strip, and a polled text resource.
use vstd::prelude::*;
use vstd::string::StringExecFns;

pub mod text;
pub mod table;
pub mod tabs;
pub mod resources;

pub use table::{TableBuilder, TableDrawer, TableRef, RowRef, TableError, SoftColumn};
pub use tabs::{Tab, Tabs};

use crate::text::views_of;
use crate::text::str_eq;

verus! {

// ------------------------------------------------------------------
// One named CSS rule
// ------------------------------------------------------------------

/// One CSS class under construction: a name and its ordered, deduplicated
/// property list.
#[derive(Debug)]
pub struct Style {
    name: &'static str,
    opts: Vec<(&'static str, &'static str)>,
}

/// Index of the first property with the given name, or the length when none
/// has it.
pub open spec fn find_key(opts: Seq<(Seq<char>, Seq<char>)>, key: Seq<char>) -> int
    decreases opts.len(),
{
    if opts.len() == 0 {
        0
    } else if opts[0].0 == key {
        0
    } else {
        1 + find_key(opts.skip(1), key)
    }
}

proof fn lemma_find_key(opts: Seq<(Seq<char>, Seq<char>)>, key: Seq<char>)
    ensures
        0 <= find_key(opts, key) <= opts.len(),
        forall|t: int| 0 <= t < find_key(opts, key) ==> (#[trigger] opts[t]).0 != key,
        find_key(opts, key) < opts.len() ==> opts[find_key(opts, key)].0 == key,
    decreases opts.len(),
{
    if opts.len() > 0 && opts[0].0 != key {
        lemma_find_key(opts.skip(1), key);
        assert forall|t: int| 0 <= t < find_key(opts, key) implies (#[trigger] opts[t]).0 != key by {
            if t > 0 {
                assert(opts.skip(1)[t - 1].0 != key);
            }
        }
    }
}

/// The property text of the first `k` entries: four spaces, name, value, one
/// per line.
pub open spec fn style_opts_text(opts: Seq<(Seq<char>, Seq<char>)>, k: int) -> Seq<char>
    decreases k,
{
    if k <= 0 {
        Seq::empty()
    } else {
        style_opts_text(opts, k - 1) + "    "@ + opts[k - 1].0 + ": "@ + opts[k - 1].1 + ";\n"@
    }
}

/// The rendered rule: nothing without properties, else the named block with
/// every property in order.
pub open spec fn style_text_spec(name: Seq<char>, opts: Seq<(Seq<char>, Seq<char>)>) -> Seq<char> {
    if opts.len() == 0 {
        Seq::empty()
    } else {
        "."@ + name + " {"@ + style_opts_text(opts, opts.len() as int) + "}"@
    }
}

impl Style {
    pub closed spec fn name_view(&self) -> Seq<char> {
        self.name@
    }

    pub closed spec fn opts_view(&self) -> Seq<(Seq<char>, Seq<char>)> {
        Seq::new(self.opts@.len(), |i: int| (self.opts@[i].0@, self.opts@[i].1@))
    }

    /// A rule with no properties yet.
    pub fn new(style: &'static str) -> (r: Style)
        ensures
            r.name_view() == style@,
            r.opts_view() == Seq::<(Seq<char>, Seq<char>)>::empty(),
    {
        let r = Style { name: style, opts: Vec::new() };
        proof {
            assert(r.opts_view() =~= Seq::<(Seq<char>, Seq<char>)>::empty());
        }
        r
    }

    /// The same properties under another class name.
    #[verifier::loop_isolation(false)]
    pub fn duplicate(&self, style: &'static str) -> (r: Style)
        ensures
            r.name_view() == style@,
            r.opts_view() == self.opts_view(),
    {
        let n = self.opts.len();
        let mut opts: Vec<(&'static str, &'static str)> = Vec::new();
        let mut i: usize = 0;
        while i < n
            invariant
                i <= n,
                opts@.len() == i,
                forall|t: int| 0 <= t < i ==> opts@[t] == self.opts@[t],
            decreases n - i,
        {
            opts.push(self.opts[i]);
            i = i + 1;
        }
        let r = Style { name: style, opts };
        proof {
            assert(r.opts_view() =~= self.opts_view());
        }
        r
    }

    /// Sets a property: replaces the first one carrying this name, or appends
    /// a new one.
    #[verifier::loop_isolation(false)]
    pub fn opt(self, opt: &'static str, value: &'static str) -> (r: Style)
        ensures
            r.name_view() == self.name_view(),
            r.opts_view() == if find_key(self.opts_view(), opt@) < self.opts_view().len() {
                self.opts_view().update(find_key(self.opts_view(), opt@), (opt@, value@))
            } else {
                self.opts_view().push((opt@, value@))
            },
    {
        let ghost gopts = self.opts_view();
        proof {
            lemma_find_key(gopts, opt@);
        }
        let mut s = self;
        let n = s.opts.len();
        let mut idx: Option<usize> = None;
        let mut i: usize = 0;
        while i < n && idx.is_none()
            invariant
                i <= n,
                idx is None ==> forall|t: int| 0 <= t < i ==> (#[trigger] gopts[t]).0 != opt@,
                idx matches Some(j) ==> i == j && j < n && gopts[j as int].0 == opt@ && forall|
                    t: int,
                |
                    0 <= t < j ==> (#[trigger] gopts[t]).0 != opt@,
            decreases n - i + (if idx is None {
                1int
            } else {
                0int
            }),
        {
            if str_eq(s.opts[i].0, opt) {
                idx = Some(i);
            } else {
                i = i + 1;
            }
        }
        match idx {
            Some(j) => {
                proof {
                    assert(find_key(gopts, opt@) == j);
                }
                s.opts[j] = (opt, value);
                proof {
                    assert(s.opts_view() =~= gopts.update(j as int, (opt@, value@)));
                }
            },
            None => {
                proof {
                    assert(find_key(gopts, opt@) == n);
                }
                s.opts.push((opt, value));
                proof {
                    assert(s.opts_view() =~= gopts.push((opt@, value@)));
                }
            },
        }
        s
    }

    /// Renders the rule as CSS text.
    #[verifier::loop_isolation(false)]
    pub fn to_text(&self) -> (r: String)
        ensures
            r@ == style_text_spec(self.name_view(), self.opts_view()),
    {
        let ghost gopts = self.opts_view();
        if self.opts.len() == 0 {
            let r = String::new();
            return r;
        }
        let mut s = String::from_str(".");
        s.append(self.name);
        s.append(" {");
        let ghost base = "."@ + self.name@ + " {"@;
        let n = self.opts.len();
        let mut i: usize = 0;
        while i < n
            invariant
                i <= n,
                s@ == base + style_opts_text(gopts, i as int),
            decreases n - i,
        {
            s.append("    ");
            s.append(self.opts[i].0);
            s.append(": ");
            s.append(self.opts[i].1);
            s.append(";\n");
            proof {
                assert(s@ =~= base + style_opts_text(gopts, i + 1));
            }
            i = i + 1;
        }
        s.append("}");
        proof {
            assert(s@ =~= style_text_spec(self.name_view(), gopts));
        }
        s
    }
}

/// Wraps a rendered value in a classed `span`.
pub open spec fn classed_spec(class: Seq<char>, t: Seq<char>) -> Seq<char> {
    "<span class='"@ + class + "'>"@ + t + "</span>"@
}

/// Wraps `t` in a `span` carrying `class`.
pub fn classed(class: &'static str, t: &str) -> (r: String)
    ensures
        r@ == classed_spec(class@, t@),
{
    let mut s = String::from_str("<span class='");
    s.append(class);
    s.append("'>");
    s.append(t);
    s.append("</span>");
    s
}

// ------------------------------------------------------------------
// One markup block
// ------------------------------------------------------------------

/// One `div` under construction: class, optional id, click handler and text,
/// and nested sub-blocks.
#[derive(Debug)]
pub struct Block {
    class: &'static str,
    onclick: Option<String>,
    id: Option<String>,
    text: Option<String>,
    subs: Vec<Block>,
}

pub open spec fn opt_text_view(o: Option<String>) -> Option<Seq<char>> {
    match o {
        Some(s) => Some(s@),
        None => None,
    }
}

/// The rendered text of one block: its text, then its sub-blocks each on a
/// line, inside a `div` carrying the id, class and click handler it has.
pub open spec fn block_text(b: Block) -> Seq<char>
    decreases b, 1int,
{
    let t = match b.text_view() {
        Some(t) => t,
        None => Seq::<char>::empty(),
    };
    let s = blocks_text(b.subs_view(), b.subs_view().len() as int);
    match (b.id_view(), b.onclick_view()) {
        (None, None) => "<div class='"@ + b.class_view() + "'>"@ + t + s + "</div>"@,
        (None, Some(oc)) => "<div class='"@ + b.class_view() + "' onclick='"@ + oc + "'>"@ + t + s
            + "</div>"@,
        (Some(id), None) => "<div id='"@ + id + "' class='"@ + b.class_view() + "'>"@ + t + s
            + "</div>"@,
        (Some(id), Some(oc)) => "<div id='"@ + id + "' class='"@ + b.class_view() + "' onclick='"@
            + oc + "'>"@ + t + s + "</div>"@,
    }
}

/// The rendered text of the first `k` blocks, each followed by a newline.
pub open spec fn blocks_text(subs: Seq<Block>, k: int) -> Seq<char>
    decreases subs, 0int, k,
{
    if k <= 0 || k > subs.len() {
        Seq::empty()
    } else {
        blocks_text(subs, k - 1) + block_text(subs[k - 1]) + "\n"@
    }
}

impl Block {
    pub closed spec fn class_view(&self) -> Seq<char> {
        self.class@
    }

    pub closed spec fn id_view(&self) -> Option<Seq<char>> {
        opt_text_view(self.id)
    }

    pub closed spec fn onclick_view(&self) -> Option<Seq<char>> {
        opt_text_view(self.onclick)
    }

    pub closed spec fn text_view(&self) -> Option<Seq<char>> {
        opt_text_view(self.text)
    }

    pub closed spec fn subs_view(&self) -> Seq<Block> {
        self.subs@
    }

    /// A bare block with a class and nothing else.
    pub fn new(class: &'static str) -> (r: Block)
        ensures
            r.class_view() == class@,
            r.id_view() is None,
            r.onclick_view() is None,
            r.text_view() is None,
            r.subs_view() == Seq::<Block>::empty(),
    {
        let r = Block { class, onclick: None, id: None, text: None, subs: Vec::new() };
        proof {
            assert(r.subs_view() =~= Seq::<Block>::empty());
        }
        r
    }

    /// Sets the element id.
    pub fn id(self, id: String) -> (r: Block)
        ensures
            r.id_view() == Some(id@),
            r.class_view() == self.class_view(),
            r.onclick_view() == self.onclick_view(),
            r.text_view() == self.text_view(),
            r.subs_view() == self.subs_view(),
    {
        let mut s = self;
        s.id = Some(id);
        s
    }

    /// Sets the click handler.
    pub fn onclick(self, onclick: String) -> (r: Block)
        ensures
            r.onclick_view() == Some(onclick@),
            r.class_view() == self.class_view(),
            r.id_view() == self.id_view(),
            r.text_view() == self.text_view(),
            r.subs_view() == self.subs_view(),
    {
        let mut s = self;
        s.onclick = Some(onclick);
        s
    }

    /// Sets the text content.
    pub fn text(self, t: String) -> (r: Block)
        ensures
            r.text_view() == Some(t@),
            r.class_view() == self.class_view(),
            r.id_view() == self.id_view(),
            r.onclick_view() == self.onclick_view(),
            r.subs_view() == self.subs_view(),
    {
        let mut s = self;
        s.text = Some(t);
        s
    }

    /// Appends a sub-block.
    pub fn sub(self, s: Block) -> (r: Block)
        ensures
            r.subs_view() == self.subs_view().push(s),
            r.class_view() == self.class_view(),
            r.id_view() == self.id_view(),
            r.onclick_view() == self.onclick_view(),
            r.text_view() == self.text_view(),
    {
        let mut b = self;
        b.subs.push(s);
        b
    }

    /// Appends a sub-block in place.
    pub fn sub_mut(&mut self, s: Block)
        ensures
            final(self).subs_view() == old(self).subs_view().push(s),
            final(self).class_view() == old(self).class_view(),
            final(self).id_view() == old(self).id_view(),
            final(self).onclick_view() == old(self).onclick_view(),
            final(self).text_view() == old(self).text_view(),
    {
        self.subs.push(s);
    }

    /// Renders the block and everything nested in it.
    #[verifier::loop_isolation(false)]
    pub fn to_text(&self) -> (r: String)
        ensures
            r@ == block_text(*self),
        decreases *self,
    {
        let mut s = String::new();
        match (&self.id, &self.onclick) {
            (None, None) => {
                s.append("<div class='");
                s.append(self.class);
                s.append("'>");
            },
            (None, Some(oc)) => {
                s.append("<div class='");
                s.append(self.class);
                s.append("' onclick='");
                s.append(oc.as_str());
                s.append("'>");
            },
            (Some(id), None) => {
                s.append("<div id='");
                s.append(id.as_str());
                s.append("' class='");
                s.append(self.class);
                s.append("'>");
            },
            (Some(id), Some(oc)) => {
                s.append("<div id='");
                s.append(id.as_str());
                s.append("' class='");
                s.append(self.class);
                s.append("' onclick='");
                s.append(oc.as_str());
                s.append("'>");
            },
        }
        let ghost head = s@;
        match &self.text {
            Some(t) => {
                s.append(t.as_str());
            },
            None => {},
        }
        let ghost tpart = match self.text_view() {
            Some(t) => t,
            None => Seq::<char>::empty(),
        };
        proof {
            assert(s@ =~= head + tpart);
        }
        let n = self.subs.len();
        let mut i: usize = 0;
        while i < n
            invariant
                i <= n == self.subs@.len(),
                s@ == head + tpart + blocks_text(self.subs@, i as int),
            decreases n - i,
        {
            let sub_text = self.subs[i].to_text();
            s.append(sub_text.as_str());
            s.append("\n");
            proof {
                assert(s@ =~= head + tpart + blocks_text(self.subs@, i + 1));
            }
            i = i + 1;
        }
        s.append("</div>");
        proof {
            assert(s@ =~= block_text(*self));
        }
        s
    }
}

// ------------------------------------------------------------------
// The page assembler
// ------------------------------------------------------------------

/// The rendered rules of the first `k` styles, each followed by a newline.
pub open spec fn styles_block_text(styles: Seq<Style>, k: int) -> Seq<char>
    decreases k,
{
    if k <= 0 || k > styles.len() {
        Seq::empty()
    } else {
        styles_block_text(styles, k - 1) + style_text_spec(
            styles[k - 1].name_view(),
            styles[k - 1].opts_view(),
        ) + "\n"@
    }
}

/// The first `k` script snippets, each followed by a newline.
pub open spec fn scripts_block_text(scripts: Seq<Seq<char>>, k: int) -> Seq<char>
    decreases k,
{
    if k <= 0 || k > scripts.len() {
        Seq::empty()
    } else {
        scripts_block_text(scripts, k - 1) + scripts[k - 1] + "\n"@
    }
}

/// A whole page under construction: title, scripts, styles, body blocks, the
/// drawer of table rows this page used, and accumulated raw CSS and JS.
#[derive(Debug)]
pub struct HtmlProducer {
    title: String,
    scripts: Vec<String>,
    styles: Vec<Style>,
    blocks: Vec<Block>,
    tables: TableDrawer,
    css: String,
    js: String,
}

/// The rendered page: head with title, styles and scripts, then the body
/// blocks.
pub open spec fn page_text_spec(
    title: Seq<char>,
    css: Seq<char>,
    styles: Seq<Style>,
    js: Seq<char>,
    scripts: Seq<Seq<char>>,
    blocks: Seq<Block>,
) -> Seq<char> {
    "<html>\n<head>\n<title>\n"@ + title + "\n</title>\n<style>\n"@ + (css + "\n"@
        + styles_block_text(styles, styles.len() as int)) + "\n</style>\n<script>\n"@ + (js + "\n"@
        + scripts_block_text(scripts, scripts.len() as int)) + "\n</script>\n</head>\n<body>\n"@
        + blocks_text(blocks, blocks.len() as int) + "\n</body>\n</html>\n"@
}

impl HtmlProducer {
    pub closed spec fn title_view(&self) -> Seq<char> {
        self.title@
    }

    pub closed spec fn scripts_view(&self) -> Seq<Seq<char>> {
        views_of(self.scripts@)
    }

    pub closed spec fn styles_view(&self) -> Seq<Style> {
        self.styles@
    }

    pub closed spec fn blocks_view(&self) -> Seq<Block> {
        self.blocks@
    }

    pub closed spec fn drawer_of(&self) -> TableDrawer {
        self.tables
    }

    pub closed spec fn css_view(&self) -> Seq<char> {
        self.css@
    }

    pub closed spec fn js_view(&self) -> Seq<char> {
        self.js@
    }

    /// The drawer stays ordered and deduplicated.
    pub open spec fn wf(&self) -> bool {
        self.drawer_of().wf()
    }

    /// Sets the page title.
    pub fn with_title(self, t: &str) -> (r: HtmlProducer)
        ensures
            r.title_view() == t@,
            r.scripts_view() == self.scripts_view(),
            r.styles_view() == self.styles_view(),
            r.blocks_view() == self.blocks_view(),
            r.drawer_of() == self.drawer_of(),
            r.css_view() == self.css_view(),
            r.js_view() == self.js_view(),
    {
        let mut s = self;
        s.title = String::from_str(t);
        s
    }

    /// Appends raw CSS, separated from what is already there by a newline.
    pub fn with_styles(self, css: &String) -> (r: HtmlProducer)
        ensures
            r.css_view() == if self.css_view().len() == 0 {
                self.css_view() + css@
            } else {
                self.css_view() + "\n"@ + css@
            },
            r.title_view() == self.title_view(),
            r.scripts_view() == self.scripts_view(),
            r.styles_view() == self.styles_view(),
            r.blocks_view() == self.blocks_view(),
            r.drawer_of() == self.drawer_of(),
            r.js_view() == self.js_view(),
    {
        let mut s = self;
        if !s.css.as_str().is_empty() {
            s.css.append("\n");
        }
        s.css.append(css.as_str());
        s
    }

    /// Appends raw JS, separated from what is already there by a newline.
    pub fn with_scripts(self, js: &String) -> (r: HtmlProducer)
        ensures
            r.js_view() == if self.js_view().len() == 0 {
                self.js_view() + js@
            } else {
                self.js_view() + "\n"@ + js@
            },
            r.title_view() == self.title_view(),
            r.scripts_view() == self.scripts_view(),
            r.styles_view() == self.styles_view(),
            r.blocks_view() == self.blocks_view(),
            r.drawer_of() == self.drawer_of(),
            r.css_view() == self.css_view(),
    {
        let mut s = self;
        if !s.js.as_str().is_empty() {
            s.js.append("\n");
        }
        s.js.append(js.as_str());
        s
    }

    /// Appends one script snippet.
    pub fn push_script(&mut self, t: &str)
        ensures
            final(self).scripts_view() == old(self).scripts_view().push(t@),
            final(self).title_view() == old(self).title_view(),
            final(self).styles_view() == old(self).styles_view(),
            final(self).blocks_view() == old(self).blocks_view(),
            final(self).drawer_of() == old(self).drawer_of(),
            final(self).css_view() == old(self).css_view(),
            final(self).js_view() == old(self).js_view(),
    {
        self.scripts.push(String::from_str(t));
        proof {
            assert(final(self).scripts_view() =~~= old(self).scripts_view().push(t@));
        }
    }

    /// Appends one style rule.
    pub fn push_style(&mut self, s: Style)
        ensures
            final(self).styles_view() == old(self).styles_view().push(s),
            final(self).title_view() == old(self).title_view(),
            final(self).scripts_view() == old(self).scripts_view(),
            final(self).blocks_view() == old(self).blocks_view(),
            final(self).drawer_of() == old(self).drawer_of(),
            final(self).css_view() == old(self).css_view(),
            final(self).js_view() == old(self).js_view(),
    {
        self.styles.push(s);
    }

    /// Appends one body block.
    pub fn push_block(&mut self, b: Block)
        ensures
            final(self).blocks_view() == old(self).blocks_view().push(b),
            final(self).title_view() == old(self).title_view(),
            final(self).scripts_view() == old(self).scripts_view(),
            final(self).styles_view() == old(self).styles_view(),
            final(self).drawer_of() == old(self).drawer_of(),
            final(self).css_view() == old(self).css_view(),
            final(self).js_view() == old(self).js_view(),
    {
        self.blocks.push(b);
    }

    /// Hands out the page's drawer, for render calls to record used rows in.
    pub fn drawer(&mut self) -> (r: &mut TableDrawer)
        ensures
            *r == old(self).drawer_of(),
            final(self).drawer_of() == *final(r),
            final(self).title_view() == old(self).title_view(),
            final(self).scripts_view() == old(self).scripts_view(),
            final(self).styles_view() == old(self).styles_view(),
            final(self).blocks_view() == old(self).blocks_view(),
            final(self).css_view() == old(self).css_view(),
            final(self).js_view() == old(self).js_view(),
    {
        &mut self.tables
    }

    /// Collects the CSS of exactly the table rows this page rendered, and
    /// appends it to the page's raw CSS.
    pub fn add_tables(&mut self, tb: &TableBuilder)
        ensures
            ({
                let s = crate::table::styles_concat_spec(tb@, old(self).drawer_of()@);
                final(self).css_view() == if s.len() == 0 {
                    old(self).css_view()
                } else if old(self).css_view().len() == 0 {
                    old(self).css_view() + s
                } else {
                    old(self).css_view() + "\n"@ + s
                }
            }),
            final(self).title_view() == old(self).title_view(),
            final(self).scripts_view() == old(self).scripts_view(),
            final(self).styles_view() == old(self).styles_view(),
            final(self).blocks_view() == old(self).blocks_view(),
            final(self).drawer_of() == old(self).drawer_of(),
            final(self).js_view() == old(self).js_view(),
    {
        let s = tb.styles(&self.tables);
        if !s.as_str().is_empty() {
            if !self.css.as_str().is_empty() {
                self.css.append("\n");
            }
            self.css.append(s.as_str());
        }
    }

    /// Renders the whole page.
    #[verifier::loop_isolation(false)]
    pub fn to_text(&self) -> (r: String)
        ensures
            r@ == page_text_spec(
                self.title_view(),
                self.css_view(),
                self.styles_view(),
                self.js_view(),
                self.scripts_view(),
                self.blocks_view(),
            ),
    {
        let mut style = self.css.clone();
        style.append("\n");
        let ns = self.styles.len();
        let mut i: usize = 0;
        while i < ns
            invariant
                i <= ns,
                style@ == self.css_view() + "\n"@ + styles_block_text(self.styles@, i as int),
            decreases ns - i,
        {
            let t = self.styles[i].to_text();
            style.append(t.as_str());
            style.append("\n");
            proof {
                assert(style@ =~= self.css_view() + "\n"@ + styles_block_text(self.styles@, i + 1));
            }
            i = i + 1;
        }
        let mut body = String::new();
        let nb = self.blocks.len();
        let mut j: usize = 0;
        proof {
            assert(body@ =~= blocks_text(self.blocks@, 0));
        }
        while j < nb
            invariant
                j <= nb,
                body@ == blocks_text(self.blocks@, j as int),
            decreases nb - j,
        {
            let t = self.blocks[j].to_text();
            body.append(t.as_str());
            body.append("\n");
            proof {
                assert(body@ =~= blocks_text(self.blocks@, j + 1));
            }
            j = j + 1;
        }
        let mut script = self.js.clone();
        script.append("\n");
        let nc = self.scripts.len();
        let mut k: usize = 0;
        while k < nc
            invariant
                k <= nc,
                script@ == self.js_view() + "\n"@ + scripts_block_text(self.scripts_view(),
                    k as int),
            decreases nc - k,
        {
            script.append(self.scripts[k].as_str());
            script.append("\n");
            proof {
                assert(script@ =~= self.js_view() + "\n"@ + scripts_block_text(
                    self.scripts_view(),
                    k + 1,
                ));
            }
            k = k + 1;
        }
        let mut page = String::from_str("<html>\n<head>\n<title>\n");
        page.append(self.title.as_str());
        page.append("\n</title>\n<style>\n");
        page.append(style.as_str());
        page.append("\n</style>\n<script>\n");
        page.append(script.as_str());
        page.append("\n</script>\n</head>\n<body>\n");
        page.append(body.as_str());
        page.append("\n</body>\n</html>\n");
        proof {
            assert(page@ =~= page_text_spec(
                self.title_view(),
                self.css_view(),
                self.styles_view(),
                self.js_view(),
                self.scripts_view(),
                self.blocks_view(),
            ));
        }
        page
    }
}

impl Default for HtmlProducer {
    /// An empty page: no title, no content, a fresh drawer.
    fn default() -> (r: HtmlProducer)
        ensures
            r.wf(),
            r.title_view() == Seq::<char>::empty(),
            r.scripts_view() == Seq::<Seq<char>>::empty(),
            r.styles_view() == Seq::<Style>::empty(),
            r.blocks_view() == Seq::<Block>::empty(),
            r.drawer_of()@ == Seq::<RowRef>::empty(),
            r.css_view() == Seq::<char>::empty(),
            r.js_view() == Seq::<char>::empty(),
    {
        let r = HtmlProducer {
            title: String::new(),
            scripts: Vec::new(),
            styles: Vec::new(),
            blocks: Vec::new(),
            tables: TableDrawer::new(),
            css: String::new(),
            js: String::new(),
        };
        proof {
            assert(r.scripts_view() =~~= Seq::<Seq<char>>::empty());
            assert(r.styles_view() =~= Seq::<Style>::empty());
            assert(r.blocks_view() =~= Seq::<Block>::empty());
        }
        r
    }
}

} // verus!
