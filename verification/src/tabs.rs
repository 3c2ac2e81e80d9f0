//! A small tab-strip widget: a list of named tabs, one of which can be made
//! active, rendered as a row of blocks.
use vstd::prelude::*;
use vstd::string::StringExecFns;

use crate::{classed, classed_spec, Block, HtmlProducer};
use crate::text::{decimal_seq, decimal_str, str_eq};

verus! {

/// One tab: its label, a count shown beside inactive tabs, whether it is the
/// active one, and the target its click navigates to.
#[derive(Debug)]
pub struct Tab {
    pub name: String,
    pub count: usize,
    pub active: bool,
    pub href: String,
}

/// The tab strip.
#[derive(Debug)]
pub struct Tabs {
    tabs: Vec<Tab>,
}

/// The text shown on one tab: its name, then the count in a classed span for
/// an inactive tab with a positive count, else an empty placeholder span.
pub open spec fn tab_label_spec(t: Tab) -> Seq<char> {
    t.name@ + if !t.active && t.count > 0 {
        classed_spec("tab_count"@, decimal_seq(t.count as nat))
    } else {
        classed_spec("tab_count_empty"@, "&nbsp;"@)
    }
}

/// The click handler of an inactive tab.
pub open spec fn tab_onclick_spec(t: Tab) -> Seq<char> {
    "tabClicked(\""@ + t.href@ + "\");"@
}

impl Tabs {
    pub closed spec fn tabs_view(&self) -> Seq<Tab> {
        self.tabs@
    }

    /// A strip over the given tabs.
    pub fn new(_producer: &mut HtmlProducer, tabs: Vec<Tab>) -> (r: Tabs)
        ensures
            r.tabs_view() == tabs@,
    {
        Tabs { tabs }
    }

    /// Marks every tab carrying this name active; the others keep their
    /// state.
    #[verifier::loop_isolation(false)]
    pub fn set_active(&mut self, name: &str)
        ensures
            final(self).tabs_view().len() == old(self).tabs_view().len(),
            forall|i: int|
                0 <= i < old(self).tabs_view().len() ==> #[trigger] final(self).tabs_view()[i] == (
                if old(self).tabs_view()[i].name@ == name@ {
                    Tab { active: true, ..old(self).tabs_view()[i] }
                } else {
                    old(self).tabs_view()[i]
                }),
    {
        let n = self.tabs.len();
        let mut i: usize = 0;
        while i < n
            invariant
                i <= n == self.tabs@.len(),
                self.tabs@.len() == old(self).tabs@.len(),
                forall|t: int|
                    0 <= t < i ==> #[trigger] self.tabs@[t] == (if old(self).tabs@[t].name@
                        == name@ {
                        Tab { active: true, ..old(self).tabs@[t] }
                    } else {
                        old(self).tabs@[t]
                    }),
                forall|t: int| i <= t < n ==> #[trigger] self.tabs@[t] == old(self).tabs@[t],
            decreases n - i,
        {
            if str_eq(self.tabs[i].name.as_str(), name) {
                self.tabs[i].active = true;
            }
            i = i + 1;
        }
    }

    /// Renders the strip: one button block per tab, an inactive one carrying
    /// its click handler, closed by a finishing spacer, all inside a row
    /// inside the outer strip block.
    #[verifier::loop_isolation(false)]
    pub fn blocks(&self) -> (r: Block)
        ensures
            r.class_view() == "tabs"@,
            r.id_view() is None,
            r.onclick_view() is None,
            r.text_view() is None,
            r.subs_view().len() == 1,
            ({
                let row = r.subs_view()[0];
                &&& row.class_view() == "tab_row"@
                &&& row.id_view() is None
                &&& row.onclick_view() is None
                &&& row.text_view() is None
                &&& row.subs_view().len() == self.tabs_view().len() + 1
                &&& forall|i: int|
                    0 <= i < self.tabs_view().len() ==> {
                        let tab = self.tabs_view()[i];
                        let b = #[trigger] row.subs_view()[i];
                        &&& b.class_view() == (if tab.active {
                            "tab_button_active"@
                        } else {
                            "tab_button"@
                        })
                        &&& b.text_view() == Some(tab_label_spec(tab))
                        &&& (tab.active ==> b.onclick_view() is None)
                        &&& (!tab.active ==> b.onclick_view() == Some(tab_onclick_spec(tab)))
                        &&& b.id_view() is None
                        &&& b.subs_view().len() == 0
                    }
                &&& ({
                    let fin = row.subs_view()[self.tabs_view().len() as int];
                    &&& fin.class_view() == "tab_finish"@
                    &&& fin.text_view() == Some("<img width=1 height=1>"@)
                    &&& fin.id_view() is None
                    &&& fin.onclick_view() is None
                    &&& fin.subs_view().len() == 0
                })
            }),
    {
        let mut bl = Block::new("tab_row");
        let n = self.tabs.len();
        let mut i: usize = 0;
        while i < n
            invariant
                i <= n == self.tabs@.len(),
                bl.class_view() == "tab_row"@,
                bl.id_view() is None,
                bl.onclick_view() is None,
                bl.text_view() is None,
                bl.subs_view().len() == i,
                forall|t: int|
                    0 <= t < i ==> {
                        let tab = self.tabs@[t];
                        let b = #[trigger] bl.subs_view()[t];
                        &&& b.class_view() == (if tab.active {
                            "tab_button_active"@
                        } else {
                            "tab_button"@
                        })
                        &&& b.text_view() == Some(tab_label_spec(tab))
                        &&& (tab.active ==> b.onclick_view() is None)
                        &&& (!tab.active ==> b.onclick_view() == Some(tab_onclick_spec(tab)))
                        &&& b.id_view() is None
                        &&& b.subs_view().len() == 0
                    },
            decreases n - i,
        {
            let active = self.tabs[i].active;
            let act: &'static str = if active {
                "tab_button_active"
            } else {
                "tab_button"
            };
            let mut t = self.tabs[i].name.clone();
            if !active && self.tabs[i].count > 0 {
                let cs = decimal_str(self.tabs[i].count);
                let span = classed("tab_count", cs.as_str());
                t.append(span.as_str());
            } else {
                let span = classed("tab_count_empty", "&nbsp;");
                t.append(span.as_str());
            }
            let mut b = Block::new(act).text(t);
            if !active {
                let mut oc = String::from_str("tabClicked(\"");
                oc.append(self.tabs[i].href.as_str());
                oc.append("\");");
                b = b.onclick(oc);
            }
            bl = bl.sub(b);
            i = i + 1;
        }
        bl = bl.sub(Block::new("tab_finish").text(String::from_str("<img width=1 height=1>")));
        Block::new("tabs").sub(bl)
    }
}

} // verus!
