//! The standalone monitor that pings a target through a given interface:
//! its configuration, the lookup of the interface's index and the count of
//! lost packets.
use vstd::prelude::*;
use vstd::string::StringExecFns;
use crate::number::{parse_unsigned, parse_unsigned_chars};
use crate::text::{chars_of, eq_str};

verus! {

/// An IP address, version 4 or 6, as an unsigned word.
#[derive(Clone, Copy, Debug, PartialEq, Eq, Structural)]
pub enum TargetAddr {
    /// An IPv4 address, most significant octet first.
    V4(u32),
    /// An IPv6 address, most significant octet first.
    V6(u128),
}

/// The standalone monitor's configuration.
pub struct MonitorConfig {
    /// The interface to ping through.
    pub interface: String,
    /// The address to ping.
    pub target: TargetAddr,
    /// Seconds between two packets.
    pub interval: u64,
    /// Packets sent per round.
    pub count: usize,
}

/// One network address of an interface: its name and its index, when the
/// system gives one.
pub struct InterfaceEntry {
    /// The interface's name.
    pub name: String,
    /// The interface's index.
    pub index: Option<u32>,
}

/// The outcome of one ping.
#[derive(Clone, Copy, Debug, PartialEq, Eq, Structural)]
pub struct PingReply {
    /// Whether no answer came in time.
    pub timeout: bool,
    /// The number of answers received.
    pub received: u32,
}

/// Whether the packet of a ping counts as lost.
pub open spec fn is_lost(r: PingReply) -> bool {
    r.timeout || r.received == 0
}

/// The number of lost packets among `rs`.
pub open spec fn lost_count(rs: Seq<PingReply>) -> nat
    decreases rs.len(),
{
    if rs.len() == 0 {
        0
    } else {
        lost_count(rs.drop_last()) + if is_lost(rs.last()) {
            1nat
        } else {
            0nat
        }
    }
}

/// Law: no more packets are lost than were sent.
pub proof fn law_lost_at_most_sent(rs: Seq<PingReply>)
    ensures
        lost_count(rs) <= rs.len(),
    decreases rs.len(),
{
    if rs.len() > 0 {
        law_lost_at_most_sent(rs.drop_last());
    }
}

/// Law: the lost packets are exactly the replies that timed out or received
/// nothing, each of them counted once.
pub proof fn law_lost_count_counts_lost_replies(rs: Seq<PingReply>)
    ensures
        lost_count(rs) == rs.filter(|r: PingReply| r.timeout || r.received == 0).len(),
    decreases rs.len(),
{
    reveal(Seq::filter);
    if rs.len() > 0 {
        law_lost_count_counts_lost_replies(rs.drop_last());
    }
}

/// Law: every reply counts, the first one too: the replies `[x] + rs` lose
/// one packet more than `rs` when `x` timed out or received nothing, and as
/// many otherwise; no replies lose nothing.
pub proof fn law_lost_count_prepend(x: PingReply, rs: Seq<PingReply>)
    ensures
        lost_count(Seq::<PingReply>::empty()) == 0,
        lost_count(seq![x] + rs) == lost_count(rs) + if x.timeout || x.received == 0 {
            1int
        } else {
            0int
        },
    decreases rs.len(),
{
    if rs.len() > 0 {
        law_lost_count_prepend(x, rs.drop_last());
        assert((seq![x] + rs).drop_last() =~= seq![x] + rs.drop_last());
        assert((seq![x] + rs).last() == rs.last());
    } else {
        assert((seq![x] + rs).drop_last() =~= Seq::<PingReply>::empty());
        assert(seq![x] + rs =~= seq![x]);
    }
}

/// The index of the first entry of `entries` named `name`, when it has one.
pub open spec fn index_of_name(entries: Seq<InterfaceEntry>, name: Seq<char>) -> Option<u32>
    decreases entries.len(),
{
    if entries.len() == 0 {
        None
    } else if entries[0].name@ == name {
        entries[0].index
    } else {
        index_of_name(entries.drop_first(), name)
    }
}

/// Law: the lookup finds the first entry named `name`, wherever it stands:
/// when `entries[k]` is named `name` and no entry before it is, the index
/// looked up is that entry's index.
pub proof fn law_index_of_name_first_match(entries: Seq<InterfaceEntry>, name: Seq<char>, k: int)
    requires
        0 <= k < entries.len(),
        entries[k].name@ == name,
        forall|j: int| 0 <= j < k ==> entries[j].name@ != name,
    ensures
        index_of_name(entries, name) == entries[k].index,
    decreases k,
{
    if k > 0 {
        let rest = entries.drop_first();
        assert forall|j: int| 0 <= j < k - 1 implies rest[j].name@ != name by {
            assert(rest[j] == entries[j + 1]);
        }
        law_index_of_name_first_match(rest, name, k - 1);
    }
}

/// Law: no index is found for a name that no entry has.
pub proof fn law_index_of_name_absent(entries: Seq<InterfaceEntry>, name: Seq<char>)
    requires
        forall|j: int| 0 <= j < entries.len() ==> entries[j].name@ != name,
    ensures
        index_of_name(entries, name) is None,
    decreases entries.len(),
{
    if entries.len() > 0 {
        let rest = entries.drop_first();
        assert forall|j: int| 0 <= j < rest.len() implies rest[j].name@ != name by {
            assert(rest[j] == entries[j + 1]);
        }
        law_index_of_name_absent(rest, name);
    }
}

/// The configuration for the command-line values: the interface, the
/// target (`None` when its text is no IP address), the interval and the
/// packet count as given. The target is checked first, then the interval,
/// then the count; each is refused with its own message.
pub fn parse_args(interface: &str, target: Option<TargetAddr>, interval: &str, count: &str) -> (r:
    Result<MonitorConfig, String>)
    ensures
        target is None ==> r is Err && r->Err_0@ == "Invalid target IP address"@,
        target is Some && parse_unsigned(interval@, 10, u64::MAX as nat) is Err ==> r is Err
            && r->Err_0@ == "Invalid interval"@,
        target is Some && parse_unsigned(interval@, 10, u64::MAX as nat) is Ok && parse_unsigned(
            count@,
            10,
            usize::MAX as nat,
        ) is Err ==> r is Err && r->Err_0@ == "Invalid packet count"@,
        target is Some && parse_unsigned(interval@, 10, u64::MAX as nat) is Ok && parse_unsigned(
            count@,
            10,
            usize::MAX as nat,
        ) is Ok ==> r is Ok && r->Ok_0.interface@ == interface@ && Some(r->Ok_0.target) == target
            && parse_unsigned(interval@, 10, u64::MAX as nat) == Ok::<nat, crate::number::IntErrorKind>(
            r->Ok_0.interval as nat,
        ) && parse_unsigned(count@, 10, usize::MAX as nat) == Ok::<nat, crate::number::IntErrorKind>(
            r->Ok_0.count as nat,
        ),
{
    let target = match target {
        Some(t) => t,
        None => {
            return Err(String::from_str("Invalid target IP address"));
        },
    };
    let interval = match parse_unsigned_chars(&chars_of(interval), 10, u64::MAX) {
        Ok(v) => v,
        Err(_) => {
            return Err(String::from_str("Invalid interval"));
        },
    };
    let count = match parse_unsigned_chars(&chars_of(count), 10, usize::MAX as u64) {
        Ok(v) => v as usize,
        Err(_) => {
            return Err(String::from_str("Invalid packet count"));
        },
    };
    Ok(MonitorConfig { interface: String::from_str(interface), target, interval, count })
}

/// The index of the first interface address named `interface_name`, or
/// nothing when the listing failed, no address has that name or the first
/// one that has it comes with no index.
pub fn get_interface_index(interfaces: Option<Vec<InterfaceEntry>>, interface_name: &str) -> (r:
    Option<u32>)
    ensures
        interfaces is None ==> r is None,
        interfaces is Some ==> r == index_of_name(interfaces->0@, interface_name@),
{
    let entries = match interfaces {
        Some(e) => e,
        None => {
            return None;
        },
    };
    assert(entries@.skip(0) =~= entries@);
    let mut i: usize = 0;
    while i < entries.len()
        invariant
            interfaces == Some(entries),
            i <= entries.len(),
            index_of_name(entries@.skip(i as int), interface_name@) == index_of_name(
                entries@,
                interface_name@,
            ),
        decreases entries.len() - i,
    {
        assert(entries@.skip(i as int).drop_first() =~= entries@.skip(i + 1));
        assert(entries@.skip(i as int)[0] == entries@[i as int]);
        let name = chars_of(entries[i].name.as_str());
        if eq_str(&name, interface_name) {
            assert(entries@.skip(i as int)[0].name@ == interface_name@);
            assert(index_of_name(entries@.skip(i as int), interface_name@) == entries@[i as int].index);
            return entries[i].index;
        }
        i += 1;
    }
    None
}

/// The number of lost packets among `replies`: those that timed out or
/// received no answer.
pub fn count_lost(replies: &Vec<PingReply>) -> (r: usize)
    ensures
        r == lost_count(replies@),
        r <= replies.len(),
{
    let mut lost: usize = 0;
    let mut i: usize = 0;
    while i < replies.len()
        invariant
            i <= replies.len(),
            lost == lost_count(replies@.take(i as int)),
        decreases replies.len() - i,
    {
        proof {
            law_lost_at_most_sent(replies@.take(i as int));
        }
        assert(replies@.take(i + 1).drop_last() =~= replies@.take(i as int));
        if replies[i].timeout || replies[i].received == 0 {
            lost += 1;
        }
        i += 1;
    }
    assert(replies@.take(i as int) =~= replies@);
    proof {
        law_lost_at_most_sent(replies@);
    }
    lost
}

} // verus!
