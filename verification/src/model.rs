//! The data model: typed lines, hosts, items and groups, together with their
//! mathematical views (`Seq`-valued mirrors used by every contract).

use vstd::prelude::*;

verus! {

/// One physical line of a hosts file.
#[derive(Debug, Clone)]
pub enum Line {
    /// A parseable mapping entry; `enabled == false` means the line was
    /// comment-prefixed but otherwise matched the entry grammar.
    Valid { ip: String, hosts: Vec<String>, enabled: bool },
    /// A blank (whitespace-only) line.
    Empty,
    /// Anything else, preserved verbatim (trimmed).
    Other(String),
    /// A `#[name]` delimiter; two with the same name bracket a named group.
    Group(String),
}

/// The view of a [`Line`].
pub ghost enum LineV {
    Valid { ip: Seq<char>, hosts: Seq<Seq<char>>, enabled: bool },
    Empty,
    Other(Seq<char>),
    Group(Seq<char>),
}

impl DeepView for Line {
    type V = LineV;

    open spec fn deep_view(&self) -> LineV {
        match self {
            Line::Valid { ip, hosts, enabled } => LineV::Valid {
                ip: ip@,
                hosts: hosts.deep_view(),
                enabled: *enabled,
            },
            Line::Empty => LineV::Empty,
            Line::Other(s) => LineV::Other(s@),
            Line::Group(s) => LineV::Group(s@),
        }
    }
}

/// One host name of an item, with its enablement.
#[derive(Debug, Clone)]
pub struct Host {
    pub content: String,
    pub enabled: bool,
}

/// The view of a [`Host`].
pub ghost struct HostV {
    pub content: Seq<char>,
    pub enabled: bool,
}

impl DeepView for Host {
    type V = HostV;

    open spec fn deep_view(&self) -> HostV {
        HostV { content: self.content@, enabled: self.enabled }
    }
}

/// The aggregated record of one IP within one group.
#[derive(Debug, Clone)]
pub struct Item {
    pub ip: String,
    pub hosts: Vec<Host>,
    pub group: String,
}

/// The view of an [`Item`].
pub ghost struct ItemV {
    pub ip: Seq<char>,
    pub hosts: Seq<HostV>,
    pub group: Seq<char>,
}

impl DeepView for Item {
    type V = ItemV;

    open spec fn deep_view(&self) -> ItemV {
        ItemV { ip: self.ip@, hosts: self.hosts.deep_view(), group: self.group@ }
    }
}

/// A named region of the file: its name, its original text slice, and the
/// items inside it.
#[derive(Debug, Clone)]
pub struct Group {
    pub name: String,
    pub text: String,
    pub list: Vec<Item>,
}

/// The view of a [`Group`].
pub ghost struct GroupV {
    pub name: Seq<char>,
    pub text: Seq<char>,
    pub list: Seq<ItemV>,
}

impl DeepView for Group {
    type V = GroupV;

    open spec fn deep_view(&self) -> GroupV {
        GroupV { name: self.name@, text: self.text@, list: self.list.deep_view() }
    }
}

/// The reserved name of the default group, the scope outside any delimiter
/// pair.
pub open spec fn system_name() -> Seq<char> {
    "System"@
}

/// Builds the reserved default group name.
pub fn system_string() -> (r: String)
    ensures
        r@ == system_name(),
{
    let r = "System".to_owned();
    r
}

/// The staging key of one group/IP pairing.
pub open spec fn key_of(group: Seq<char>, ip: Seq<char>) -> Seq<char> {
    group + seq!['_'] + ip
}

/// The staging key of an item.
pub open spec fn item_key(it: ItemV) -> Seq<char> {
    key_of(it.group, it.ip)
}

/// Builds the staging key of one group/IP pairing.
pub fn key(group: &str, ip: &str) -> (r: String)
    ensures
        r@ == key_of(group@, ip@),
{
    let mut v = crate::text::to_chars(group);
    v.push('_');
    let tail = crate::text::to_chars(ip);
    proof {
        assert(v@ =~= group@ + seq!['_'] + tail@.take(0));
    }
    let mut i: usize = 0;
    while i < tail.len()
        invariant
            i <= tail.len(),
            v@ == group@ + seq!['_'] + tail@.take(i as int),
            tail@ == ip@,
        decreases tail.len() - i,
    {
        v.push(tail[i]);
        i = i + 1;
        proof {
            assert(v@ =~= group@ + seq!['_'] + tail@.take(i as int));
        }
    }
    proof {
        assert(group@ + seq!['_'] + tail@.take(tail.len() as int) =~= key_of(group@, ip@));
    }
    crate::text::chars_to_string(&v)
}

/// Copies a host, field by field.
pub fn clone_host(h: &Host) -> (r: Host)
    ensures
        r.deep_view() == h.deep_view(),
{
    Host { content: h.content.clone(), enabled: h.enabled }
}

/// Copies a host list, element by element.
pub fn clone_hosts(hs: &Vec<Host>) -> (r: Vec<Host>)
    ensures
        r.deep_view() == hs.deep_view(),
{
    let mut r: Vec<Host> = Vec::new();
    let mut i: usize = 0;
    while i < hs.len()
        invariant
            i <= hs.len(),
            r.deep_view() == hs.deep_view().take(i as int),
        decreases hs.len() - i,
    {
        let ghost prev: Seq<HostV> = r.deep_view();
        r.push(clone_host(&hs[i]));
        i = i + 1;
        proof {
            assert(r.deep_view() =~~= prev.push(hs@[i - 1].deep_view()));
            assert(hs.deep_view()[i - 1] == hs@[i - 1].deep_view());
            assert(prev.push(hs@[i - 1].deep_view()) =~~= hs.deep_view().take(i as int));
        }
    }
    proof {
        assert(hs.deep_view().take(hs.len() as int) =~~= hs.deep_view());
    }
    r
}

/// Copies an item, field by field.
pub fn clone_item(it: &Item) -> (r: Item)
    ensures
        r.deep_view() == it.deep_view(),
{
    Item { ip: it.ip.clone(), hosts: clone_hosts(&it.hosts), group: it.group.clone() }
}

/// Copies an item list, element by element.
pub fn clone_items(its: &Vec<Item>) -> (r: Vec<Item>)
    ensures
        r.deep_view() == its.deep_view(),
{
    let mut r: Vec<Item> = Vec::new();
    let mut i: usize = 0;
    while i < its.len()
        invariant
            i <= its.len(),
            its.deep_view().len() == its@.len(),
            r.deep_view() == its.deep_view().take(i as int),
        decreases its.len() - i,
    {
        let ghost prev: Seq<ItemV> = r.deep_view();
        r.push(clone_item(&its[i]));
        i = i + 1;
        proof {
            assert(its.deep_view()[i - 1] == its@[i - 1].deep_view());
            assert(r.deep_view() =~~= prev.push(its.deep_view()[i - 1]));
            assert(prev.push(its.deep_view()[i - 1]) =~~= its.deep_view().take(i as int));
        }
    }
    proof {
        assert(its.deep_view().take(its@.len() as int) =~~= its.deep_view());
    }
    r
}

} // verus!
