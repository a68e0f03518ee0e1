//! macOS: `ping -c`, the output of `route -n get default` and of `ifconfig`.
use vstd::prelude::*;
use vstd::string::StringExecFns;
use crate::ping_output::{macos_loss_capture, macos_loss_text};
use crate::text::{
    lemma_skip_while_to, not_char, skip_back_while, trim_start, white,
    chars_of, contains, contains_lit, decimal, decimal_chars, eq_str, find_char, first_index,
    has_char, is_white_space, is_whitespace_char, lemma_first_index, lemma_trim, lines,
    lossy_string, next_line, opt_string_view, result_view, slice, string_of, string_views, trim,
    trim_chars, utf8_lossy,
};

verus! {

/// The macOS implementation of the platform operations.
#[derive(Clone, Copy)]
pub struct PlatformImpl;

/// The gateway that one line of the output of `route -n get default`
/// names, if any: on a line that contains `gateway:`, the text between its
/// first and second `:` (or its end), trimmed, cut before its first `)` and
/// trimmed again, unless that is empty.
pub open spec fn route_line_gateway(line: Seq<char>) -> Option<Seq<char>> {
    if contains(line, "gateway:"@) && has_char(line, ':') {
        let after = line.skip(first_index(line, ':') + 1);
        let g = trim(after.take(first_index(after, ':')));
        let g2 = trim(g.take(first_index(g, ')')));
        if g2.len() > 0 {
            Some(g2)
        } else {
            None
        }
    } else {
        None
    }
}

/// The gateway named by the first line of `ls` that names one.
pub open spec fn route_output_gateway(ls: Seq<Seq<char>>) -> Result<Seq<char>, Seq<char>>
    decreases ls.len(),
{
    if ls.len() == 0 {
        Err("No default gateway found"@)
    } else {
        match route_line_gateway(ls[0]) {
            Some(g) => Ok(g),
            None => route_output_gateway(ls.drop_first()),
        }
    }
}

/// The interface that one line of the output of `ifconfig` names, if any.
/// An interface's block starts with a line that is not indented and holds
/// the name up to the first `:`, as in `en0: flags=8863<UP,...> mtu 1500`;
/// the name is that text, trimmed, unless it is empty or the loopback `lo0`.
pub open spec fn ifconfig_interface(line: Seq<char>) -> Option<Seq<char>> {
    if line.len() > 0 && !is_white_space(line[0]) && has_char(line, ':') {
        let name = trim(line.take(first_index(line, ':')));
        if name.len() > 0 && name != "lo0"@ {
            Some(name)
        } else {
            None
        }
    } else {
        None
    }
}

/// The interfaces named by the lines `ls` of the output of `ifconfig`.
pub open spec fn ifconfig_interfaces(ls: Seq<Seq<char>>) -> Seq<Seq<char>>
    decreases ls.len(),
{
    if ls.len() == 0 {
        seq![]
    } else {
        match ifconfig_interface(ls[0]) {
            Some(n) => seq![n] + ifconfig_interfaces(ls.drop_first()),
            None => ifconfig_interfaces(ls.drop_first()),
        }
    }
}

/// Law: the interfaces of two stretches of output are those of the first followed
/// by those of the second, and one line gives the name it holds, if any:
/// nothing is reordered, merged or dropped across lines.
pub proof fn law_ifconfig_interfaces_concat(ls1: Seq<Seq<char>>, ls2: Seq<Seq<char>>, l: Seq<char>)
    ensures
        ifconfig_interfaces(ls1 + ls2) == ifconfig_interfaces(ls1) + ifconfig_interfaces(ls2),
        ifconfig_interfaces(seq![l]) == match ifconfig_interface(l) {
            Some(n) => seq![n],
            None => Seq::<Seq<char>>::empty(),
        },
    decreases ls1.len(),
{
    if ls1.len() > 0 {
        law_ifconfig_interfaces_concat(ls1.drop_first(), ls2, l);
        assert((ls1 + ls2).drop_first() =~= ls1.drop_first() + ls2);
        assert((ls1 + ls2)[0] == ls1[0]);
    } else {
        assert(ls1 + ls2 =~= ls2);
    }
    assert(seq![l].drop_first() =~= Seq::<Seq<char>>::empty());
    assert(seq![l][0] == l);
    let none = ifconfig_interfaces(Seq::<Seq<char>>::empty());
    assert(none =~= Seq::<Seq<char>>::empty());
    match ifconfig_interface(l) {
        Some(n) => {
            assert(seq![n] + none =~= seq![n]);
        },
        None => {},
    }
}

/// Law: a gateway read from the output of `route` is non-empty, holds no
/// `)` and has no surrounding whitespace.
pub proof fn law_route_gateway_clean(ls: Seq<Seq<char>>)
    ensures
        route_output_gateway(ls) matches Ok(g) ==> {
            &&& g.len() > 0
            &&& !has_char(g, ')')
            &&& !is_white_space(g[0])
            &&& !is_white_space(g[g.len() - 1])
        },
    decreases ls.len(),
{
    if ls.len() > 0 {
        match route_line_gateway(ls[0]) {
            Some(g2) => {
                let line = ls[0];
                let after = line.skip(first_index(line, ':') + 1);
                let g = trim(after.take(first_index(after, ':')));
                lemma_first_index(g, ')');
                assert(!has_char(g.take(first_index(g, ')')), ')'));
                lemma_trim(g.take(first_index(g, ')')));
            },
            None => {
                law_route_gateway_clean(ls.drop_first());
            },
        }
    }
}

/// Law: the first line that names a gateway decides: when line `k` names
/// the gateway `g` and no line before it names one, the result is `g`,
/// whatever lines follow; when no line names one, the result is an error.
pub proof fn law_first_gateway_line_decides(ls: Seq<Seq<char>>, k: int, g: Seq<char>)
    requires
        0 <= k < ls.len(),
        route_line_gateway(ls[k]) == Some(g),
        forall|j: int| 0 <= j < k ==> #[trigger] route_line_gateway(ls[j]) is None,
    ensures
        route_output_gateway(ls) == Ok::<Seq<char>, Seq<char>>(g),
    decreases k,
{
    if k > 0 {
        let rest = ls.drop_first();
        assert(route_line_gateway(ls[0]) is None);
        assert forall|j: int| 0 <= j < k - 1 implies #[trigger] route_line_gateway(rest[j]) is None by {
            assert(rest[j] == ls[j + 1]);
        }
        assert(rest[k - 1] == ls[k]);
        law_first_gateway_line_decides(rest, k - 1, g);
    }
}

/// Law: only the loopback is left out. A line of `ifconfig` that starts
/// with a name and a `:`, as in `en0: flags=8863<UP,...> mtu 1500`, names
/// that interface whenever the name is non-empty, has no surrounding
/// whitespace, holds no `:` and is not exactly `lo0`.
pub proof fn law_ifconfig_line_names_interface(name: Seq<char>, rest: Seq<char>)
    requires
        name.len() > 0,
        !is_white_space(name[0]),
        !is_white_space(name[name.len() - 1]),
        !has_char(name, ':'),
        name != "lo0"@,
    ensures
        ifconfig_interface(name + seq![':'] + rest) == Some(name),
{
    let line = name + seq![':'] + rest;
    let n = name.len() as int;
    assert(line[0] == name[0]);
    assert forall|j: int| 0 <= j < n implies #[trigger] not_char(':')(line[j]) by {
        assert(line[j] == name[j]);
        if name[j] == ':' {
            assert(has_char(name, ':'));
        }
    }
    assert(line[n] == ':');
    lemma_skip_while_to(line, 0, n, not_char(':'));
    assert(has_char(line, ':'));
    assert(line.take(n) =~= name);
    lemma_skip_while_to(name, 0, 0, white());
    assert(trim_start(name) =~= name);
    assert(skip_back_while(name, n, white()) == n);
    assert(trim(name) =~= name);
}

/// Law: the interfaces read from the output of `ifconfig` are never empty,
/// never the loopback `lo0`, and hold no `:`.
pub proof fn law_ifconfig_interfaces_named(ls: Seq<Seq<char>>)
    ensures
        forall|i: int|
            0 <= i < ifconfig_interfaces(ls).len() ==> {
                let n = #[trigger] ifconfig_interfaces(ls)[i];
                &&& n.len() > 0
                &&& n != "lo0"@
                &&& !has_char(n, ':')
            },
    decreases ls.len(),
{
    if ls.len() > 0 {
        law_ifconfig_interfaces_named(ls.drop_first());
        let rest = ifconfig_interfaces(ls.drop_first());
        match ifconfig_interface(ls[0]) {
            Some(n) => {
                let line = ls[0];
                let t = line.take(first_index(line, ':'));
                lemma_first_index(line, ':');
                assert(!has_char(t, ':')) by {
                    if has_char(t, ':') {
                        let i = choose|i: int| 0 <= i < t.len() && t[i] == ':';
                        assert(line[i] == ':');
                    }
                }
                lemma_trim(t);
                assert(ifconfig_interfaces(ls) == seq![n] + rest);
                assert forall|i: int| 0 <= i < ifconfig_interfaces(ls).len() implies {
                    let m = #[trigger] ifconfig_interfaces(ls)[i];
                    &&& m.len() > 0
                    &&& m != "lo0"@
                    &&& !has_char(m, ':')
                } by {
                    if i > 0 {
                        assert(ifconfig_interfaces(ls)[i] == rest[i - 1]);
                    }
                }
            },
            None => {
                assert(ifconfig_interfaces(ls) == rest);
            },
        }
    }
}

fn gateway_of_line(line: &Vec<char>) -> (r: Option<Vec<char>>)
    ensures
        match r {
            Some(g) => route_line_gateway(line@) == Some(g@),
            None => route_line_gateway(line@) is None,
        },
{
    if !contains_lit(line, "gateway:") {
        return None;
    }
    let k = find_char(line, 0, ':');
    proof {
        lemma_first_index(line@, ':');
    }
    if k >= line.len() {
        return None;
    }
    let after = slice(line, k + 1, line.len());
    assert(after@ =~= line@.skip(first_index(line@, ':') + 1));
    let k2 = find_char(&after, 0, ':');
    proof {
        lemma_first_index(after@, ':');
    }
    let field = slice(&after, 0, k2);
    let g = trim_chars(&field);
    let k3 = find_char(&g, 0, ')');
    proof {
        lemma_first_index(g@, ')');
    }
    let before = slice(&g, 0, k3);
    let g2 = trim_chars(&before);
    if g2.len() > 0 {
        Some(g2)
    } else {
        None
    }
}

fn interface_of_line(line: &Vec<char>) -> (r: Option<String>)
    ensures
        opt_string_view(r) == ifconfig_interface(line@),
{
    if line.len() == 0 || is_whitespace_char(line[0]) {
        return None;
    }
    let k = find_char(line, 0, ':');
    proof {
        lemma_first_index(line@, ':');
    }
    if k >= line.len() {
        return None;
    }
    let head = slice(line, 0, k);
    assert(head@ =~= line@.take(first_index(line@, ':')));
    let name = trim_chars(&head);
    if name.len() > 0 && !eq_str(&name, "lo0") {
        Some(string_of(&name))
    } else {
        None
    }
}

/// The text of an AppleScript string literal that reads as `s`: `s` with a
/// `\` before each `"` and each `\`.
pub open spec fn applescript_escape(s: Seq<char>) -> Seq<char>
    decreases s.len(),
{
    if s.len() == 0 {
        seq![]
    } else if s[0] == '"' || s[0] == '\\' {
        seq!['\\', s[0]] + applescript_escape(s.skip(1))
    } else {
        seq![s[0]] + applescript_escape(s.skip(1))
    }
}

/// What a reader of a string literal takes from `t`, the text between its
/// quotes, when its only escapes are `\"` and `\\`: `None` when `t` holds a
/// `"` that is not escaped (it would end the literal early), a `\` before
/// any other character, or a lone `\` at its end.
pub open spec fn read_string_literal(t: Seq<char>) -> Option<Seq<char>>
    decreases t.len(),
{
    if t.len() == 0 {
        Some(seq![])
    } else if t[0] == '"' {
        None
    } else if t[0] == '\\' {
        if t.len() >= 2 && (t[1] == '"' || t[1] == '\\') {
            match read_string_literal(t.skip(2)) {
                Some(r) => Some(seq![t[1]] + r),
                None => None,
            }
        } else {
            None
        }
    } else {
        match read_string_literal(t.skip(1)) {
            Some(r) => Some(seq![t[0]] + r),
            None => None,
        }
    }
}

/// Law: an escaped text read back as the body of a string literal is the
/// text itself, so neither the title nor the message of a notification can
/// end its literal early.
pub proof fn law_applescript_escape_reads_back(s: Seq<char>)
    ensures
        read_string_literal(applescript_escape(s)) == Some(s),
    decreases s.len(),
{
    if s.len() > 0 {
        law_applescript_escape_reads_back(s.skip(1));
        let t = applescript_escape(s);
        let e = applescript_escape(s.skip(1));
        if s[0] == '"' || s[0] == '\\' {
            assert(t.skip(2) =~= e);
        } else {
            assert(t.skip(1) =~= e);
        }
        assert(seq![s[0]] + s.skip(1) =~= s);
    }
}

/// `s` escaped for the inside of an AppleScript string literal.
fn escape_applescript(s: &str) -> (r: String)
    ensures
        r@ == applescript_escape(s@),
{
    let chars = chars_of(s);
    let mut out: Vec<char> = Vec::new();
    let mut i: usize = 0;
    assert(chars@.skip(0) =~= chars@);
    while i < chars.len()
        invariant
            i <= chars.len(),
            out@ + applescript_escape(chars@.skip(i as int)) == applescript_escape(chars@),
        decreases chars.len() - i,
    {
        let c = chars[i];
        let ghost rest = chars@.skip(i as int);
        assert(rest.skip(1) =~= chars@.skip(i + 1));
        assert(rest[0] == c);
        let ghost before = out@;
        if c == '"' || c == '\\' {
            out.push('\\');
            out.push(c);
            assert(out@ =~= before + seq!['\\', c]);
        } else {
            out.push(c);
            assert(out@ =~= before + seq![c]);
        }
        i += 1;
        assert(out@ + applescript_escape(chars@.skip(i as int)) =~= before + applescript_escape(
            rest,
        ));
    }
    assert(chars@.skip(i as int) =~= Seq::<char>::empty());
    assert(applescript_escape(chars@.skip(i as int)) =~= Seq::<char>::empty());
    assert(out@ =~= applescript_escape(chars@));
    string_of(&out)
}

/// The command that shows a desktop notification: an AppleScript
/// `display notification` run by `osascript`, with the message and the
/// title escaped inside their string literals.
pub open spec fn notification_command_spec(title: Seq<char>, message: Seq<char>) -> Seq<Seq<char>> {
    seq![
        "osascript"@,
        "-e"@,
        "display notification \""@ + applescript_escape(message) + "\" with title \""@
            + applescript_escape(title) + "\""@,
    ]
}

impl PlatformImpl {
    /// The macOS platform.
    pub fn new() -> Self {
        PlatformImpl
    }

    /// The arguments of the `ping` command that sends `count` packets to
    /// `target`: `-c <count> <target>`.
    pub fn ping_arguments(&self, target: &str, count: usize) -> (r: Vec<String>)
        ensures
            string_views(r@) == seq!["-c"@, decimal(count as nat), target@],
    {
        let mut r: Vec<String> = Vec::new();
        r.push(String::from_str("-c"));
        let c = decimal_chars(count as u64);
        r.push(string_of(&c));
        r.push(String::from_str(target));
        assert(string_views(r@) =~= seq!["-c"@, decimal(count as nat), target@]);
        r
    }

    /// The packet-loss figure in the output of `ping`: the number before the
    /// first `% packet loss` (leftmost match of
    /// `(\d+\.?\d*)\s*%\s*packet\s+loss` in the output read as UTF-8 with
    /// invalid sequences replaced), or nothing when there is none.
    pub fn parse_ping_output(&self, stdout: &[u8]) -> (r: Option<String>)
        ensures
            opt_string_view(r) == macos_loss_text(utf8_lossy(stdout@)),
    {
        let text = lossy_string(stdout);
        let chars = chars_of(text.as_str());
        match macos_loss_capture(&chars) {
            Some(v) => Some(string_of(&v)),
            None => None,
        }
    }

    /// The default gateway in the text that `route -n get default` printed:
    /// the gateway of the first line that names one, else an error.
    pub fn parse_route_output(&self, output: &str) -> (r: Result<String, String>)
        ensures
            result_view(r) == route_output_gateway(lines(output@)),
    {
        let mut rest = chars_of(output);
        loop
            invariant
                route_output_gateway(lines(rest@)) == route_output_gateway(lines(output@)),
            decreases rest.len(),
        {
            if rest.len() == 0 {
                return Err(String::from_str("No default gateway found"));
            }
            let (line, next) = next_line(&rest);
            assert(lines(rest@).drop_first() =~= lines(next@));
            assert(lines(rest@)[0] == line@);
            match gateway_of_line(&line) {
                Some(g) => {
                    return Ok(string_of(&g));
                },
                None => {},
            }
            rest = next;
        }
    }

    /// The default gateway from a run of `route -n get default`: an error
    /// when the command failed, else the gateway in its output read as UTF-8
    /// with invalid sequences replaced.
    pub fn get_default_gateway(&self, route_succeeded: bool, stdout: &[u8]) -> (r: Result<
        String,
        String,
    >)
        ensures
            !route_succeeded ==> result_view(r) == Err::<Seq<char>, Seq<char>>(
                "Route command failed"@,
            ),
            route_succeeded ==> result_view(r) == route_output_gateway(
                lines(utf8_lossy(stdout@)),
            ),
    {
        if !route_succeeded {
            return Err(String::from_str("Route command failed"));
        }
        let text = lossy_string(stdout);
        self.parse_route_output(text.as_str())
    }

    /// The program and arguments that show a notification titled `title`
    /// with the text `message`.
    pub fn notification_command(&self, title: &str, message: &str) -> (r: Vec<String>)
        ensures
            string_views(r@) == notification_command_spec(title@, message@),
    {
        let shown = escape_applescript(message);
        let heading = escape_applescript(title);
        let mut script = String::from_str("display notification \"");
        script.append(shown.as_str());
        script.append("\" with title \"");
        script.append(heading.as_str());
        script.append("\"");
        let mut r: Vec<String> = Vec::new();
        r.push(String::from_str("osascript"));
        r.push(String::from_str("-e"));
        r.push(script);
        assert(string_views(r@) =~= notification_command_spec(title@, message@));
        r
    }

    /// The interfaces named in the text that `ifconfig` printed, in order,
    /// without the loopback `lo0`.
    pub fn parse_ifconfig_output(&self, output: &str) -> (r: Vec<String>)
        ensures
            string_views(r@) == ifconfig_interfaces(lines(output@)),
    {
        let mut r: Vec<String> = Vec::new();
        let mut rest = chars_of(output);
        loop
            invariant
                string_views(r@) + ifconfig_interfaces(lines(rest@)) == ifconfig_interfaces(
                    lines(output@),
                ),
            decreases rest.len(),
        {
            if rest.len() == 0 {
                assert(string_views(r@) + ifconfig_interfaces(lines(rest@)) =~= string_views(r@));
                return r;
            }
            let (line, next) = next_line(&rest);
            assert(lines(rest@).drop_first() =~= lines(next@));
            assert(lines(rest@)[0] == line@);
            let ghost old_r = r@;
            match interface_of_line(&line) {
                Some(name) => {
                    r.push(name);
                    assert(string_views(r@) =~= string_views(old_r).push(
                        ifconfig_interface(line@).unwrap(),
                    ));
                    assert(string_views(r@) + ifconfig_interfaces(lines(next@)) =~= string_views(
                        old_r,
                    ) + ifconfig_interfaces(lines(rest@)));
                },
                None => {},
            }
            rest = next;
        }
    }

    /// The interfaces named in the output of `ifconfig` read as UTF-8 with
    /// invalid sequences replaced, in order, without the loopback `lo0`.
    pub fn get_network_interfaces(&self, stdout: &[u8]) -> (r: Vec<String>)
        ensures
            string_views(r@) == ifconfig_interfaces(lines(utf8_lossy(stdout@))),
    {
        let text = lossy_string(stdout);
        self.parse_ifconfig_output(text.as_str())
    }
}

} // verus!
