//! The command layer: the entry points a front end drives the library
//! through, over plain values.

use vstd::prelude::*;
use crate::groups::{groups_sp, text_to_groups};
use crate::model::{clone_items, Group, GroupV, Item};
use crate::parse::parse_sp;
use crate::render::render_sp;
use crate::synth::{list_to_text, synthesize_sp};

verus! {

/// The transfer record of one group, as a front end receives it.
#[derive(Debug, Clone)]
pub struct GroupDTO {
    pub name: String,
    pub text: String,
    pub list: Vec<Item>,
}

impl DeepView for GroupDTO {
    type V = GroupV;

    open spec fn deep_view(&self) -> GroupV {
        GroupV { name: self.name@, text: self.text@, list: self.list.deep_view() }
    }
}

/// Parses the given hosts text into its ordered groups, as transfer records.
pub fn get_groups(text: String) -> (r: Vec<GroupDTO>)
    ensures
        r.deep_view() == groups_sp(text@),
{
    let groups = text_to_groups(text);
    let ghost gv: Seq<GroupV> = groups.deep_view();
    let mut r: Vec<GroupDTO> = Vec::new();
    let mut i: usize = 0;
    while i < groups.len()
        invariant
            i <= groups.len(),
            gv == groups.deep_view(),
            gv.len() == groups@.len(),
            r.deep_view() == gv.take(i as int),
        decreases groups.len() - i,
    {
        let g = &groups[i];
        let ghost prev: Seq<GroupV> = r.deep_view();
        r.push(GroupDTO { name: g.name.clone(), text: g.text.clone(), list: clone_items(&g.list) });
        i = i + 1;
        proof {
            assert(gv[i - 1] == groups@[i - 1].deep_view());
            assert(r.deep_view() =~~= prev.push(gv[i - 1]));
            assert(prev.push(gv[i - 1]) =~~= gv.take(i as int));
        }
    }
    proof {
        assert(gv.take(groups@.len() as int) =~= gv);
    }
    r
}

/// Whether the candidate is a syntactically valid IP address.
pub fn is_ip(text: String) -> (r: bool)
    ensures
        r == crate::ip::is_ip_sp(text@),
{
    crate::ip::is_ip(text.as_str())
}

/// Regenerates the hosts text from an edited item list and the original text.
pub fn update_text_by_list(list: Vec<Item>, text: String) -> (r: String)
    ensures
        r@ == render_sp(synthesize_sp(list.deep_view(), parse_sp(text@)), false),
{
    list_to_text(list, text)
}

} // verus!
