//! Linux: `ping -c`, the routing table in `/proc/net/route` and the device
//! table in `/proc/net/dev`.
use vstd::prelude::*;
use vstd::string::StringExecFns;
use crate::ipv4::{dotted, dotted_chars, from_big_endian, host_order};
use crate::number::{
    digit_value, hex_digits, int_error_message, law_hex_word_round_trip,
    lemma_hex_digits_are_digits, parse_unsigned,
    parse_unsigned_chars,
};
use crate::ping_output::{linux_loss_capture, linux_loss_text};
use crate::text::{
    chars_of, decimal, decimal_chars, eq_str, find_char, first_index, has_char, lines,
    lossy_string, next_line, opt_string_view, result_view, slice, split_whitespace, split_ws,
    starts_with, starts_with_lit, string_of, string_views, trim, trim_chars, utf8_lossy, views,
    lemma_first_index, lemma_trim, is_white_space, lemma_skip_back_while, lemma_skip_while_to,
    not_char, skip_back_while, trim_start, white,
};

verus! {

/// The Linux implementation of the platform operations.
#[derive(Clone, Copy)]
pub struct PlatformImpl;

// ---------------------------------------------------------------------------
// Specifications
// ---------------------------------------------------------------------------

/// The gateway field without a `0x` prefix.
pub open spec fn gateway_hex(field: Seq<char>) -> Seq<char> {
    if starts_with(field, "0x"@) {
        field.skip(2)
    } else {
        field
    }
}

/// The gateway that a hexadecimal field of the routing table names: its
/// value read as a big-endian word, in dotted-decimal form, or the error
/// that reports an unreadable field.
pub open spec fn gateway_of_hex(hex: Seq<char>) -> Result<Seq<char>, Seq<char>> {
    match parse_unsigned(hex, 16, u32::MAX as nat) {
        Ok(v) => Ok(dotted(from_big_endian(v as u32))),
        Err(e) => Err("Invalid gateway hex '"@ + hex + "': "@ + int_error_message(e)),
    }
}

/// Whether a routing-table row is skipped as blank or as the header.
pub open spec fn is_skipped_row(fields: Seq<Seq<char>>) -> bool {
    fields.len() == 0 || fields[0] == "Iface"@
}

/// The gateway of the first default route (destination `00000000`) among
/// the rows `ls` of the routing table.
pub open spec fn route_gateway(ls: Seq<Seq<char>>) -> Result<Seq<char>, Seq<char>>
    decreases ls.len(),
{
    if ls.len() == 0 {
        Err("No default gateway found"@)
    } else {
        let f = split_ws(ls[0]);
        if is_skipped_row(f) {
            route_gateway(ls.drop_first())
        } else if f[1] == "00000000"@ {
            gateway_of_hex(gateway_hex(f[2]))
        } else {
            route_gateway(ls.drop_first())
        }
    }
}

/// Whether every row that the search for the default route reads has the
/// fields it reads: the destination, and on the default route the gateway.
pub open spec fn route_rows_complete(ls: Seq<Seq<char>>) -> bool
    decreases ls.len(),
{
    if ls.len() == 0 {
        true
    } else {
        let f = split_ws(ls[0]);
        if is_skipped_row(f) {
            route_rows_complete(ls.drop_first())
        } else if f.len() < 2 {
            false
        } else if f[1] == "00000000"@ {
            f.len() >= 3
        } else {
            route_rows_complete(ls.drop_first())
        }
    }
}

/// The interface that a row of the device table names, if any: the trimmed
/// text before the first `:` of a trimmed row that has one and is not the
/// `Inter-` header, unless it is empty or the loopback `lo`.
pub open spec fn dev_interface(line: Seq<char>) -> Option<Seq<char>> {
    let t = trim(line);
    if has_char(t, ':') && !starts_with(t, "Inter-"@) && t.len() > 0 {
        let name = trim(t.take(first_index(t, ':')));
        if name.len() > 0 && name != "lo"@ {
            Some(name)
        } else {
            None
        }
    } else {
        None
    }
}

/// The interfaces named by the rows `ls` of the device table, in order.
pub open spec fn dev_interfaces(ls: Seq<Seq<char>>) -> Seq<Seq<char>>
    decreases ls.len(),
{
    if ls.len() == 0 {
        seq![]
    } else {
        match dev_interface(ls[0]) {
            Some(n) => seq![n] + dev_interfaces(ls.drop_first()),
            None => dev_interfaces(ls.drop_first()),
        }
    }
}

/// Law: the interfaces of two stretches of output are those of the first followed
/// by those of the second, and one line gives the name it holds, if any:
/// nothing is reordered, merged or dropped across lines.
pub proof fn law_dev_interfaces_concat(ls1: Seq<Seq<char>>, ls2: Seq<Seq<char>>, l: Seq<char>)
    ensures
        dev_interfaces(ls1 + ls2) == dev_interfaces(ls1) + dev_interfaces(ls2),
        dev_interfaces(seq![l]) == match dev_interface(l) {
            Some(n) => seq![n],
            None => Seq::<Seq<char>>::empty(),
        },
    decreases ls1.len(),
{
    if ls1.len() > 0 {
        law_dev_interfaces_concat(ls1.drop_first(), ls2, l);
        assert((ls1 + ls2).drop_first() =~= ls1.drop_first() + ls2);
        assert((ls1 + ls2)[0] == ls1[0]);
    } else {
        assert(ls1 + ls2 =~= ls2);
    }
    assert(seq![l].drop_first() =~= Seq::<Seq<char>>::empty());
    assert(seq![l][0] == l);
    let none = dev_interfaces(Seq::<Seq<char>>::empty());
    assert(none =~= Seq::<Seq<char>>::empty());
    match dev_interface(l) {
        Some(n) => {
            assert(seq![n] + none =~= seq![n]);
        },
        None => {},
    }
}

/// Law: a gateway field as the kernel writes it, eight upper-case
/// hexadecimal digits of the address word, is read as that word in the
/// machine's byte order, in dotted-decimal form.
pub proof fn law_gateway_field_round_trip(x: u32)
    ensures
        gateway_of_hex(gateway_hex(hex_digits(x as nat, 8))) == Ok::<Seq<char>, Seq<char>>(
            dotted(from_big_endian(x)),
        ),
{
    reveal_strlit("0x");
    law_hex_word_round_trip(x);
    lemma_hex_digits_are_digits(x as nat, 8);
    let h = hex_digits(x as nat, 8);
    assert(digit_value(h[1], 16) is Some);
    assert(h.subrange(0, 2)[1] == h[1]);
    assert(!starts_with(h, "0x"@));
}

/// Law: the interfaces read from the device table are never empty, never
/// the loopback `lo`, hold no `:` and have no surrounding whitespace.
pub proof fn law_dev_interfaces_named(ls: Seq<Seq<char>>)
    ensures
        forall|i: int|
            0 <= i < dev_interfaces(ls).len() ==> {
                let n = #[trigger] dev_interfaces(ls)[i];
                &&& n.len() > 0
                &&& n != "lo"@
                &&& !has_char(n, ':')
                &&& !is_white_space(n[0])
                &&& !is_white_space(n[n.len() - 1])
            },
    decreases ls.len(),
{
    if ls.len() > 0 {
        law_dev_interfaces_named(ls.drop_first());
        let rest = dev_interfaces(ls.drop_first());
        match dev_interface(ls[0]) {
            Some(n) => {
                let t = trim(ls[0]);
                let k = first_index(t, ':');
                lemma_first_index(t, ':');
                assert(!has_char(t.take(k), ':'));
                lemma_trim(t.take(k));
                assert(dev_interfaces(ls) == seq![n] + rest);
                assert forall|i: int| 0 <= i < dev_interfaces(ls).len() implies {
                    let m = #[trigger] dev_interfaces(ls)[i];
                    &&& m.len() > 0
                    &&& m != "lo"@
                    &&& !has_char(m, ':')
                    &&& !is_white_space(m[0])
                    &&& !is_white_space(m[m.len() - 1])
                } by {
                    if i > 0 {
                        assert(dev_interfaces(ls)[i] == rest[i - 1]);
                    }
                }
            },
            None => {
                assert(dev_interfaces(ls) == rest);
            },
        }
    }
}

/// Law: the first default route decides. When row `k` of the routing table
/// is a default route (fields: an interface other than the `Iface` header,
/// destination `00000000`, a gateway field) and every row before it is
/// blank, the header, or a route to another destination, the result is the
/// gateway read from row `k`'s gateway field, whatever rows follow.
pub proof fn law_first_default_route_decides(ls: Seq<Seq<char>>, k: int)
    requires
        0 <= k < ls.len(),
        split_ws(ls[k]).len() >= 3,
        split_ws(ls[k])[0] != "Iface"@,
        split_ws(ls[k])[1] == "00000000"@,
        forall|j: int|
            0 <= j < k ==> {
                let f = #[trigger] split_ws(ls[j]);
                ||| f.len() == 0
                ||| f[0] == "Iface"@
                ||| (f.len() >= 2 && f[1] != "00000000"@)
            },
    ensures
        route_gateway(ls) == gateway_of_hex(gateway_hex(split_ws(ls[k])[2])),
    decreases k,
{
    if k > 0 {
        let rest = ls.drop_first();
        assert(split_ws(ls[0]) == split_ws(ls[0]));
        assert forall|j: int| 0 <= j < k - 1 implies {
            let f = #[trigger] split_ws(rest[j]);
            ||| f.len() == 0
            ||| f[0] == "Iface"@
            ||| (f.len() >= 2 && f[1] != "00000000"@)
        } by {
            assert(rest[j] == ls[j + 1]);
            assert(split_ws(ls[j + 1]) == split_ws(rest[j]));
        }
        assert(rest[k - 1] == ls[k]);
        law_first_default_route_decides(rest, k - 1);
    }
}

/// Law: a routing table none of whose rows is a default route has no
/// default gateway.
pub proof fn law_no_default_route(ls: Seq<Seq<char>>)
    requires
        forall|j: int|
            0 <= j < ls.len() ==> {
                let f = #[trigger] split_ws(ls[j]);
                ||| f.len() == 0
                ||| f[0] == "Iface"@
                ||| (f.len() >= 2 && f[1] != "00000000"@)
            },
    ensures
        route_gateway(ls) == Err::<Seq<char>, Seq<char>>("No default gateway found"@),
    decreases ls.len(),
{
    if ls.len() > 0 {
        let rest = ls.drop_first();
        assert(split_ws(ls[0]) == split_ws(ls[0]));
        assert forall|j: int| 0 <= j < rest.len() implies {
            let f = #[trigger] split_ws(rest[j]);
            ||| f.len() == 0
            ||| f[0] == "Iface"@
            ||| (f.len() >= 2 && f[1] != "00000000"@)
        } by {
            assert(rest[j] == ls[j + 1]);
            assert(split_ws(ls[j + 1]) == split_ws(rest[j]));
        }
        law_no_default_route(rest);
    }
}

/// Law: only the loopback is left out. A device-table row made of
/// indentation, a name and a `:` followed by the counters names that
/// interface, whenever the name is non-empty, has no surrounding whitespace,
/// holds no `:`, is not exactly `lo` and does not start the `Inter-` header.
pub proof fn law_dev_row_names_interface(
    indent: Seq<char>,
    name: Seq<char>,
    counters: Seq<char>,
)
    requires
        forall|i: int| 0 <= i < indent.len() ==> is_white_space(#[trigger] indent[i]),
        name.len() > 0,
        !is_white_space(name[0]),
        !is_white_space(name[name.len() - 1]),
        !has_char(name, ':'),
        name != "lo"@,
        !starts_with(name, "Inter-"@),
    ensures
        dev_interface(indent + name + seq![':'] + counters) == Some(name),
{
    reveal_strlit("Inter-");
    let row = indent + name + seq![':'] + counters;
    let u = name + seq![':'] + counters;
    let n = name.len() as int;
    assert(row =~= indent + u);
    assert forall|j: int| 0 <= j < indent.len() implies #[trigger] white()(row[j]) by {
        assert(row[j] == indent[j]);
    }
    assert(row[indent.len() as int] == name[0]);
    lemma_skip_while_to(row, 0, indent.len() as int, white());
    assert(trim_start(row) =~= u);
    lemma_skip_back_while(u, u.len() as int, white());
    let b = skip_back_while(u, u.len() as int, white());
    assert(u[n] == ':');
    assert(!white()(u[n]));
    assert(b > n);
    let t = u.take(b);
    assert(trim(row) == t);
    assert forall|j: int| 0 <= j < n implies #[trigger] not_char(':')(t[j]) by {
        assert(t[j] == name[j]);
        if name[j] == ':' {
            assert(has_char(name, ':'));
        }
    }
    assert(t[n] == ':');
    lemma_skip_while_to(t, 0, n, not_char(':'));
    assert(first_index(t, ':') == n);
    assert(has_char(t, ':'));
    assert(t.take(n) =~= name);
    if starts_with(t, "Inter-"@) {
        if n >= 6 {
            assert(name.subrange(0, 6) =~= t.subrange(0, 6));
        } else {
            assert(t[n] == "Inter-"@[n]);
        }
    }
    lemma_skip_while_to(name, 0, 0, white());
    assert(trim_start(name) =~= name);
    assert(skip_back_while(name, n, white()) == n);
    assert(trim(name) =~= name);
}

// ---------------------------------------------------------------------------
// Implementation
// ---------------------------------------------------------------------------

/// The gateway named by a hexadecimal routing-table field.
fn gateway_from_hex(hex: &Vec<char>) -> (r: Result<String, String>)
    ensures
        result_view(r) == gateway_of_hex(hex@),
{
    match parse_unsigned_chars(hex, 16, 0xffff_ffff) {
        Ok(v) => {
            let a = host_order(v as u32);
            let text = dotted_chars(a);
            Ok(string_of(&text))
        },
        Err(e) => {
            let mut m = String::from_str("Invalid gateway hex '");
            let h = string_of(hex);
            m.append(h.as_str());
            m.append("': ");
            let msg = e.message();
            m.append(msg.as_str());
            Err(m)
        },
    }
}

/// The interface named by one row of the device table.
fn interface_of_row(line: &Vec<char>) -> (r: Option<String>)
    ensures
        opt_string_view(r) == dev_interface(line@),
{
    let t = trim_chars(line);
    let k = find_char(&t, 0, ':');
    proof {
        lemma_first_index(t@, ':');
    }
    if k < t.len() && !starts_with_lit(&t, "Inter-") && t.len() > 0 {
        let before = slice(&t, 0, k);
        let name = trim_chars(&before);
        if name.len() > 0 && !eq_str(&name, "lo") {
            return Some(string_of(&name));
        }
    }
    None
}

/// The command that shows a desktop notification: `notify-send` with a
/// normal urgency and a five-second timeout.
pub open spec fn notification_command_spec(title: Seq<char>, message: Seq<char>) -> Seq<Seq<char>> {
    seq!["notify-send"@, "-u"@, "normal"@, "-t"@, "5000"@, title, message]
}

impl PlatformImpl {
    /// The Linux platform.
    pub fn new() -> Self {
        PlatformImpl
    }

    /// The arguments of the `ping` command that sends `count` packets to
    /// `target`: `-c <count> <target>`.
    pub fn ping_arguments(&self, target: &str, count: usize) -> (r: Vec<String>)
        ensures
            string_views(r@) == seq!["-c"@, decimal(count as nat), target@],
    {
        let mut r: Vec<String> = Vec::new();
        r.push(String::from_str("-c"));
        let c = decimal_chars(count as u64);
        r.push(string_of(&c));
        r.push(String::from_str(target));
        assert(string_views(r@) =~= seq!["-c"@, decimal(count as nat), target@]);
        r
    }

    /// The packet-loss figure in the output of `ping`: the number, with its
    /// fraction if it has one, before the first `% packet loss` (leftmost
    /// match of `(\d+\.?\d*)%\s*packet\s+loss` in the output read as UTF-8
    /// with invalid sequences replaced), or nothing when the output holds no
    /// such text.
    pub fn parse_ping_output(&self, stdout: &[u8]) -> (r: Option<String>)
        ensures
            opt_string_view(r) == linux_loss_text(utf8_lossy(stdout@)),
    {
        let text = lossy_string(stdout);
        let chars = chars_of(text.as_str());
        match linux_loss_capture(&chars) {
            Some(v) => Some(string_of(&v)),
            None => None,
        }
    }

    /// Whether every row of `route_table` that the search for the default
    /// gateway reads has the fields it reads.
    pub fn route_rows_complete(&self, route_table: &str) -> (r: bool)
        ensures
            r == route_rows_complete(lines(route_table@)),
    {
        let mut rest = chars_of(route_table);
        loop
            invariant
                route_rows_complete(lines(rest@)) == route_rows_complete(lines(route_table@)),
            decreases rest.len(),
        {
            if rest.len() == 0 {
                return true;
            }
            let (line, next) = next_line(&rest);
            let f = split_whitespace(&line);
            assert(lines(rest@).drop_first() =~= lines(next@));
            assert(lines(rest@)[0] == line@);
            if f.len() == 0 {
            } else if eq_str(&f[0], "Iface") {
                assert(views(f@)[0] == f@[0]@);
            } else if f.len() < 2 {
                assert(views(f@)[0] == f@[0]@);
                return false;
            } else {
                assert(views(f@)[0] == f@[0]@);
                assert(views(f@)[1] == f@[1]@);
                if eq_str(&f[1], "00000000") {
                    return f.len() >= 3;
                }
            }
            rest = next;
        }
    }

    /// The default gateway named in the routing table `route_table` (the
    /// text of `/proc/net/route`): the gateway field of the first row whose
    /// destination is `00000000`, read as hexadecimal (after an optional
    /// `0x`), taken as a big-endian word and written in dotted-decimal form.
    pub fn get_default_gateway(&self, route_table: &str) -> (r: Result<String, String>)
        requires
            route_rows_complete(lines(route_table@)),
        ensures
            result_view(r) == route_gateway(lines(route_table@)),
    {
        let mut rest = chars_of(route_table);
        loop
            invariant
                route_gateway(lines(rest@)) == route_gateway(lines(route_table@)),
                route_rows_complete(lines(rest@)),
            decreases rest.len(),
        {
            if rest.len() == 0 {
                return Err(String::from_str("No default gateway found"));
            }
            let (line, next) = next_line(&rest);
            let f = split_whitespace(&line);
            assert(lines(rest@).drop_first() =~= lines(next@));
            assert(lines(rest@)[0] == line@);
            if f.len() == 0 {
            } else if eq_str(&f[0], "Iface") {
                assert(views(f@)[0] == f@[0]@);
            } else {
                assert(views(f@)[0] == f@[0]@);
                assert(views(f@)[1] == f@[1]@);
                if eq_str(&f[1], "00000000") {
                    assert(views(f@)[2] == f@[2]@);
                    let field = &f[2];
                    let hex = if starts_with_lit(field, "0x") {
                        proof {
                            reveal_strlit("0x");
                        }
                        slice(field, 2, field.len())
                    } else {
                        slice(field, 0, field.len())
                    };
                    assert(hex@ =~= gateway_hex(field@));
                    return gateway_from_hex(&hex);
                }
            }
            rest = next;
        }
    }

    /// The program and arguments that show a notification titled `title`
    /// with the text `message`.
    pub fn notification_command(&self, title: &str, message: &str) -> (r: Vec<String>)
        ensures
            string_views(r@) == notification_command_spec(title@, message@),
    {
        let mut r: Vec<String> = Vec::new();
        r.push(String::from_str("notify-send"));
        r.push(String::from_str("-u"));
        r.push(String::from_str("normal"));
        r.push(String::from_str("-t"));
        r.push(String::from_str("5000"));
        r.push(String::from_str(title));
        r.push(String::from_str(message));
        assert(string_views(r@) =~= notification_command_spec(title@, message@));
        r
    }

    /// The interfaces named in the device table `dev_table` (the text of
    /// `/proc/net/dev`), in order, without the loopback `lo`.
    pub fn get_network_interfaces(&self, dev_table: &str) -> (r: Vec<String>)
        ensures
            string_views(r@) == dev_interfaces(lines(dev_table@)),
    {
        let mut r: Vec<String> = Vec::new();
        let mut rest = chars_of(dev_table);
        loop
            invariant
                string_views(r@) + dev_interfaces(lines(rest@)) == dev_interfaces(
                    lines(dev_table@),
                ),
            decreases rest.len(),
        {
            if rest.len() == 0 {
                assert(string_views(r@) + dev_interfaces(lines(rest@)) =~= string_views(r@));
                return r;
            }
            let (line, next) = next_line(&rest);
            assert(lines(rest@).drop_first() =~= lines(next@));
            assert(lines(rest@)[0] == line@);
            let ghost old_r = r@;
            match interface_of_row(&line) {
                Some(name) => {
                    r.push(name);
                    assert(string_views(r@) =~= string_views(old_r).push(
                        dev_interface(line@).unwrap(),
                    ));
                    assert(string_views(r@) + dev_interfaces(lines(next@)) =~= string_views(old_r)
                        + dev_interfaces(lines(rest@)));
                },
                None => {},
            }
            rest = next;
        }
    }
}

} // verus!
