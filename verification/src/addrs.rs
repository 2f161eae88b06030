//! The address table of the UDP driver: peers get small sequential ids

use vstd::prelude::*;
use crate::assoc::{assoc_map, keys_unique, lemma_assoc_dom, lemma_assoc_index, lemma_assoc_push, lemma_assoc_update};

verus! {

/// An IP address, version 4 or 6, held as its number.
#[derive(Clone, Copy, Debug, PartialEq, Eq, Structural, Hash)]
pub enum IpAddr {
    V4(u32),
    V6(u128),
}

/// Address lookup table: every address that was set has an id, and every
/// id that was handed out names an address.
pub struct AddrTable {
    last: u16,
    ips: Vec<(u16, IpAddr)>,
    ids: Vec<(IpAddr, u16)>,
}

/// The table as plain values: the last id handed out, the addresses in
/// the order their ids were handed out, and the id of each address.
pub ghost struct AddrTableView {
    pub last: u16,
    pub entries: Seq<(u16, IpAddr)>,
    pub ids: Map<IpAddr, u16>,
}

impl View for AddrTable {
    type V = AddrTableView;

    closed spec fn view(&self) -> AddrTableView {
        AddrTableView { last: self.last, entries: self.ips@, ids: assoc_map(self.ids@) }
    }
}

/// The ids of the entries rise strictly and none is above the last id.
pub open spec fn entries_ordered(e: Seq<(u16, IpAddr)>, last: u16) -> bool {
    &&& forall|i: int, j: int| 0 <= i < j < e.len() ==> e[i].0 < e[j].0
    &&& forall|i: int| 0 <= i < e.len() ==> #[trigger] e[i].0 <= last
}

/// The addresses of the entries, in order.
pub open spec fn entry_ips(e: Seq<(u16, IpAddr)>) -> Seq<IpAddr> {
    e.map_values(|p: (u16, IpAddr)| p.1)
}

fn find_ip(v: &Vec<(IpAddr, u16)>, ip: IpAddr) -> (r: Option<usize>)
    ensures
        match r {
            Some(i) => i < v@.len() && v@[i as int].0 == ip,
            None => forall|i: int| 0 <= i < v@.len() ==> v@[i].0 != ip,
        },
{
    let mut i: usize = 0;
    while i < v.len()
        invariant
            i <= v@.len(),
            forall|k: int| 0 <= k < i ==> v@[k].0 != ip,
        decreases v@.len() - i,
    {
        if v[i].0 == ip {
            return Some(i);
        }
        i = i + 1;
    }
    None
}

impl AddrTable {
    pub closed spec fn wf(&self) -> bool {
        &&& entries_ordered(self.ips@, self.last)
        &&& keys_unique(self.ids@)
    }

    /// An empty table.
    pub fn new() -> (r: AddrTable)
        ensures
            r.wf(),
            r@.last == 0,
            r@.entries.len() == 0,
            r@.ids == Map::<IpAddr, u16>::empty(),
    {
        AddrTable { last: 0, ips: Vec::new(), ids: Vec::new() }
    }

    /// Inserts an address into the table and returns its new id, one more
    /// than the last id handed out. The table only grows: an address that
    /// is set again gets a new id, and its old id still names it.
    pub fn set(&mut self, ip: IpAddr) -> (r: u16)
        requires
            old(self).wf(),
            old(self)@.last < u16::MAX,
        ensures
            final(self).wf(),
            r == old(self)@.last + 1,
            final(self)@.last == r,
            final(self)@.entries == old(self)@.entries.push((r, ip)),
            final(self)@.ids == old(self)@.ids.insert(ip, r),
    {
        self.last = self.last + 1;
        let id = self.last;
        self.ips.push((id, ip));
        let ghost s = self.ids@;
        match find_ip(&self.ids, ip) {
            Some(i) => {
                self.ids.set(i, (ip, id));
                proof {
                    lemma_assoc_update(s, i as int, id);
                }
            }
            None => {
                proof {
                    lemma_assoc_push(s, ip, id);
                }
                self.ids.push((ip, id));
            }
        }
        id
    }

    /// The id of an address, if it was set.
    pub fn id(&self, ip: &IpAddr) -> (r: Option<u16>)
        requires
            self.wf(),
        ensures
            r == (if self@.ids.contains_key(*ip) { Some(self@.ids[*ip]) } else { None::<u16> }),
    {
        match find_ip(&self.ids, *ip) {
            Some(i) => {
                proof {
                    lemma_assoc_index(self.ids@, i as int);
                }
                Some(self.ids[i].1)
            }
            None => {
                proof {
                    lemma_assoc_dom(self.ids@, *ip);
                }
                None
            }
        }
    }

    /// The address that an id names, if it was handed out.
    pub fn ip(&self, id: u16) -> (r: Option<IpAddr>)
        requires
            self.wf(),
        ensures
            r == (if assoc_map(self@.entries).contains_key(id) {
                Some(assoc_map(self@.entries)[id])
            } else {
                None::<IpAddr>
            }),
    {
        let mut i: usize = 0;
        proof {
            assert forall|a: int, b: int| 0 <= a < self.ips@.len() && 0 <= b < self.ips@.len() && a != b
                implies self.ips@[a].0 != self.ips@[b].0 by {
                if a < b {
                    assert(self.ips@[a].0 < self.ips@[b].0);
                } else {
                    assert(self.ips@[b].0 < self.ips@[a].0);
                }
            }
        }
        while i < self.ips.len()
            invariant
                keys_unique(self.ips@),
                i <= self.ips@.len(),
                forall|k: int| 0 <= k < i ==> self.ips@[k].0 != id,
            decreases self.ips@.len() - i,
        {
            if self.ips[i].0 == id {
                proof {
                    lemma_assoc_index(self.ips@, i as int);
                }
                return Some(self.ips[i].1);
            }
            i = i + 1;
        }
        proof {
            lemma_assoc_dom(self.ips@, id);
        }
        None
    }

    /// All addresses, in the order of their ids.
    pub fn all(&self) -> (r: Vec<IpAddr>)
        ensures
            r@ == entry_ips(self@.entries),
    {
        let mut out: Vec<IpAddr> = Vec::new();
        let mut i: usize = 0;
        while i < self.ips.len()
            invariant
                i <= self.ips@.len(),
                out@ == entry_ips(self.ips@.take(i as int)),
            decreases self.ips@.len() - i,
        {
            out.push(self.ips[i].1);
            i = i + 1;
            assert(entry_ips(self.ips@.take(i as int)) =~= entry_ips(self.ips@.take(i - 1)).push(self.ips@[i - 1].1));
        }
        assert(self.ips@.take(i as int) =~= self.ips@);
        out
    }
}

/// Read after write: right after an address is set, its id is the one
/// handed out, and that id names the address.
pub proof fn lemma_set_then_lookup(before: AddrTableView, after: AddrTableView, ip: IpAddr, r: u16)
    requires
        entries_ordered(before.entries, before.last),
        r == before.last + 1,
        after.entries == before.entries.push((r, ip)),
        after.ids == before.ids.insert(ip, r),
    ensures
        after.ids.contains_key(ip) && after.ids[ip] == r,
        assoc_map(after.entries).contains_key(r) && assoc_map(after.entries)[r] == ip,
        entry_ips(after.entries) == entry_ips(before.entries).push(ip),
{
    assert(after.entries.drop_last() =~= before.entries);
    assert(entry_ips(after.entries) =~= entry_ips(before.entries).push(ip));
}

} // verus!
