//! Windows: `ping -n`, the output of `route print -4` and of `ipconfig /all`.
use vstd::prelude::*;
use vstd::string::StringExecFns;
use crate::ping_output::{windows_loss_capture, windows_loss_text};
use crate::text::{
    lemma_skip_while_to, not_char, skip_back_while, trim_start, white,
    chars_of, contains, contains_lit, decimal, decimal_chars, eq_str, find_char, first_index,
    has_char, lemma_first_index, lines, lossy_string, next_line, opt_string_view, result_view,
    slice, split_whitespace, split_ws, starts_with, starts_with_lit, string_of, string_views, trim,
    trim_chars, utf8_lossy, views, lemma_trim, is_white_space, occurs_at,
};

verus! {

/// The Windows implementation of the platform operations.
#[derive(Clone, Copy)]
pub struct PlatformImpl;

/// The gateway that one line of the output of `route print -4` names, if
/// any: on a trimmed line that starts with `0.0.0.0` (the default route)
/// and has at least three fields, the third field, unless it is `0.0.0.0`.
pub open spec fn route_line_gateway(line: Seq<char>) -> Option<Seq<char>> {
    let t = trim(line);
    let f = split_ws(t);
    if starts_with(t, "0.0.0.0"@) && contains(t, "0.0.0.0"@) && f.len() >= 3 && f[2].len() > 0
        && f[2] != "0.0.0.0"@ {
        Some(f[2])
    } else {
        None
    }
}

/// The gateway named by the first line of `ls` that names one.
pub open spec fn route_output_gateway(ls: Seq<Seq<char>>) -> Result<Seq<char>, Seq<char>>
    decreases ls.len(),
{
    if ls.len() == 0 {
        Err("No default gateway found"@)
    } else {
        match route_line_gateway(ls[0]) {
            Some(g) => Ok(g),
            None => route_output_gateway(ls.drop_first()),
        }
    }
}

/// Whether a trimmed line of the output of `ipconfig /all` heads the
/// section of an adapter.
pub open spec fn is_adapter_heading(t: Seq<char>) -> bool {
    starts_with(t, "Ethernet adapter"@) || starts_with(t, "Wireless LAN adapter"@)
}

/// The words that a trimmed adapter heading starts with.
pub open spec fn adapter_prefix(t: Seq<char>) -> Seq<char> {
    if starts_with(t, "Ethernet adapter"@) {
        "Ethernet adapter"@
    } else {
        "Wireless LAN adapter"@
    }
}

/// The adapter that one line of the output of `ipconfig /all` names, if
/// any. A heading such as `Ethernet adapter Ethernet:` names the adapter
/// between its first words and the first `:` after them; the name is that
/// text, trimmed, unless it is empty.
pub open spec fn ipconfig_interface(line: Seq<char>) -> Option<Seq<char>> {
    let t = trim(line);
    let rest = t.skip(adapter_prefix(t).len() as int);
    if is_adapter_heading(t) && has_char(rest, ':') {
        let name = trim(rest.take(first_index(rest, ':')));
        if name.len() > 0 {
            Some(name)
        } else {
            None
        }
    } else {
        None
    }
}

/// The adapters named by the lines `ls` of the output of `ipconfig /all`.
pub open spec fn ipconfig_interfaces(ls: Seq<Seq<char>>) -> Seq<Seq<char>>
    decreases ls.len(),
{
    if ls.len() == 0 {
        seq![]
    } else {
        match ipconfig_interface(ls[0]) {
            Some(n) => seq![n] + ipconfig_interfaces(ls.drop_first()),
            None => ipconfig_interfaces(ls.drop_first()),
        }
    }
}

/// Law: the adapters of two stretches of output are those of the first followed
/// by those of the second, and one line gives the name it holds, if any:
/// nothing is reordered, merged or dropped across lines.
pub proof fn law_ipconfig_interfaces_concat(ls1: Seq<Seq<char>>, ls2: Seq<Seq<char>>, l: Seq<char>)
    ensures
        ipconfig_interfaces(ls1 + ls2) == ipconfig_interfaces(ls1) + ipconfig_interfaces(ls2),
        ipconfig_interfaces(seq![l]) == match ipconfig_interface(l) {
            Some(n) => seq![n],
            None => Seq::<Seq<char>>::empty(),
        },
    decreases ls1.len(),
{
    if ls1.len() > 0 {
        law_ipconfig_interfaces_concat(ls1.drop_first(), ls2, l);
        assert((ls1 + ls2).drop_first() =~= ls1.drop_first() + ls2);
        assert((ls1 + ls2)[0] == ls1[0]);
    } else {
        assert(ls1 + ls2 =~= ls2);
    }
    assert(seq![l].drop_first() =~= Seq::<Seq<char>>::empty());
    assert(seq![l][0] == l);
    let none = ipconfig_interfaces(Seq::<Seq<char>>::empty());
    assert(none =~= Seq::<Seq<char>>::empty());
    match ipconfig_interface(l) {
        Some(n) => {
            assert(seq![n] + none =~= seq![n]);
        },
        None => {},
    }
}

/// Law: a gateway read from the output of `route print` is non-empty and
/// never `0.0.0.0`.
pub proof fn law_route_gateway_not_unspecified(ls: Seq<Seq<char>>)
    ensures
        route_output_gateway(ls) matches Ok(g) ==> g.len() > 0 && g != "0.0.0.0"@,
    decreases ls.len(),
{
    if ls.len() > 0 && route_line_gateway(ls[0]) is None {
        law_route_gateway_not_unspecified(ls.drop_first());
    }
}

/// Law: the first line that names a default gateway decides. When line `k`
/// of the output, trimmed, starts with `0.0.0.0` and its third field is a
/// gateway other than `0.0.0.0`, and no line before it is such a line, the
/// result is that third field, whatever lines follow.
pub proof fn law_first_default_route_decides(ls: Seq<Seq<char>>, k: int)
    requires
        0 <= k < ls.len(),
        starts_with(trim(ls[k]), "0.0.0.0"@),
        split_ws(trim(ls[k])).len() >= 3,
        split_ws(trim(ls[k]))[2].len() > 0,
        split_ws(trim(ls[k]))[2] != "0.0.0.0"@,
        forall|j: int|
            0 <= j < k ==> {
                let t = #[trigger] trim(ls[j]);
                let f = split_ws(t);
                !(starts_with(t, "0.0.0.0"@) && f.len() >= 3 && f[2].len() > 0 && f[2]
                    != "0.0.0.0"@)
            },
    ensures
        route_output_gateway(ls) == Ok::<Seq<char>, Seq<char>>(split_ws(trim(ls[k]))[2]),
    decreases k,
{
    if k > 0 {
        let rest = ls.drop_first();
        assert(trim(ls[0]) == trim(ls[0]));
        assert forall|j: int| 0 <= j < k - 1 implies {
            let t = #[trigger] trim(rest[j]);
            let f = split_ws(t);
            !(starts_with(t, "0.0.0.0"@) && f.len() >= 3 && f[2].len() > 0 && f[2] != "0.0.0.0"@)
        } by {
            assert(rest[j] == ls[j + 1]);
            assert(trim(ls[j + 1]) == trim(rest[j]));
        }
        assert(rest[k - 1] == ls[k]);
        law_first_default_route_decides(rest, k - 1);
    } else {
        let t = trim(ls[0]);
        assert(occurs_at(t, 0, "0.0.0.0"@));
        assert(contains(t, "0.0.0.0"@));
    }
}

/// Law: an adapter heading names its adapter. The line
/// `<indentation>Ethernet adapter <name>:` (or `Wireless LAN adapter`)
/// names `<name>` whenever the name is non-empty, has no surrounding
/// whitespace and holds no `:`.
pub proof fn law_adapter_heading_names_adapter(indent: Seq<char>, wireless: bool, name: Seq<char>)
    requires
        forall|i: int| 0 <= i < indent.len() ==> is_white_space(#[trigger] indent[i]),
        name.len() > 0,
        !is_white_space(name[0]),
        !is_white_space(name[name.len() - 1]),
        !has_char(name, ':'),
    ensures
        ipconfig_interface(
            indent + (if wireless {
                "Wireless LAN adapter"@
            } else {
                "Ethernet adapter"@
            }) + seq![' '] + name + seq![':'],
        ) == Some(name),
{
    reveal_strlit("Wireless LAN adapter");
    reveal_strlit("Ethernet adapter");
    let words = if wireless {
        "Wireless LAN adapter"@
    } else {
        "Ethernet adapter"@
    };
    let u = words + seq![' '] + name + seq![':'];
    let line = indent + u;
    let n = name.len() as int;
    let w = words.len() as int;
    assert(indent + words + seq![' '] + name + seq![':'] =~= line);
    assert forall|j: int| 0 <= j < indent.len() implies #[trigger] white()(line[j]) by {
        assert(line[j] == indent[j]);
    }
    assert(line[indent.len() as int] == words[0]);
    lemma_skip_while_to(line, 0, indent.len() as int, white());
    assert(trim_start(line) =~= u);
    assert(u[u.len() - 1] == ':');
    assert(skip_back_while(u, u.len() as int, white()) == u.len());
    assert(trim(line) =~= u);
    assert(u.subrange(0, w) =~= words);
    if wireless {
        assert(u[0] == 'W');
        if starts_with(u, "Ethernet adapter"@) {
            assert(u.subrange(0, 16)[0] == 'E');
        }
    }
    assert(adapter_prefix(u) == words);
    assert(is_adapter_heading(u));
    let rest = u.skip(w);
    assert(rest =~= seq![' '] + name + seq![':']);
    assert forall|j: int| 0 <= j < n + 1 implies #[trigger] not_char(':')(rest[j]) by {
        if j > 0 {
            assert(rest[j] == name[j - 1]);
            if name[j - 1] == ':' {
                assert(has_char(name, ':'));
            }
        }
    }
    assert(rest[n + 1] == ':');
    lemma_skip_while_to(rest, 0, n + 1, not_char(':'));
    assert(has_char(rest, ':'));
    let head = rest.take(n + 1);
    assert(head =~= seq![' '] + name);
    assert(white()(head[0]));
    assert(head[1] == name[0]);
    lemma_skip_while_to(head, 0, 1, white());
    assert(trim_start(head) =~= name);
    assert(skip_back_while(name, n, white()) == n);
    assert(trim(head) =~= name);
}

/// Law: the adapters read from the output of `ipconfig /all` are never
/// empty, have no surrounding whitespace and hold no `:`.
pub proof fn law_ipconfig_interfaces_named(ls: Seq<Seq<char>>)
    ensures
        forall|i: int|
            0 <= i < ipconfig_interfaces(ls).len() ==> {
                let n = #[trigger] ipconfig_interfaces(ls)[i];
                &&& n.len() > 0
                &&& !is_white_space(n[0])
                &&& !is_white_space(n[n.len() - 1])
                &&& !has_char(n, ':')
            },
    decreases ls.len(),
{
    if ls.len() > 0 {
        law_ipconfig_interfaces_named(ls.drop_first());
        let rest = ipconfig_interfaces(ls.drop_first());
        match ipconfig_interface(ls[0]) {
            Some(n) => {
                let t = trim(ls[0]);
                let after = t.skip(adapter_prefix(t).len() as int);
                let head = after.take(first_index(after, ':'));
                lemma_first_index(after, ':');
                assert(!has_char(head, ':')) by {
                    if has_char(head, ':') {
                        let i = choose|i: int| 0 <= i < head.len() && head[i] == ':';
                        assert(after[i] == ':');
                    }
                }
                lemma_trim(head);
                assert(ipconfig_interfaces(ls) == seq![n] + rest);
                assert forall|i: int| 0 <= i < ipconfig_interfaces(ls).len() implies {
                    let m = #[trigger] ipconfig_interfaces(ls)[i];
                    &&& m.len() > 0
                    &&& !is_white_space(m[0])
                    &&& !is_white_space(m[m.len() - 1])
                    &&& !has_char(m, ':')
                } by {
                    if i > 0 {
                        assert(ipconfig_interfaces(ls)[i] == rest[i - 1]);
                    }
                }
            },
            None => {
                assert(ipconfig_interfaces(ls) == rest);
            },
        }
    }
}

fn gateway_of_line(line: &Vec<char>) -> (r: Option<Vec<char>>)
    ensures
        match r {
            Some(g) => route_line_gateway(line@) == Some(g@),
            None => route_line_gateway(line@) is None,
        },
{
    let t = trim_chars(line);
    if !(starts_with_lit(&t, "0.0.0.0") && contains_lit(&t, "0.0.0.0")) {
        return None;
    }
    let f = split_whitespace(&t);
    if f.len() < 3 {
        return None;
    }
    assert(views(f@)[2] == f@[2]@);
    if f[2].len() > 0 && !eq_str(&f[2], "0.0.0.0") {
        Some(slice(&f[2], 0, f[2].len()))
    } else {
        None
    }
}

fn interface_of_line(line: &Vec<char>) -> (r: Option<String>)
    ensures
        opt_string_view(r) == ipconfig_interface(line@),
{
    proof {
        reveal_strlit("Ethernet adapter");
        reveal_strlit("Wireless LAN adapter");
    }
    let t = trim_chars(line);
    let plen: usize = if starts_with_lit(&t, "Ethernet adapter") {
        16
    } else if starts_with_lit(&t, "Wireless LAN adapter") {
        20
    } else {
        return None;
    };
    assert(plen == adapter_prefix(t@).len());
    let after = slice(&t, plen, t.len());
    assert(after@ =~= t@.skip(plen as int));
    let k = find_char(&after, 0, ':');
    proof {
        lemma_first_index(after@, ':');
    }
    if k >= after.len() {
        return None;
    }
    let head = slice(&after, 0, k);
    assert(head@ =~= after@.take(first_index(after@, ':')));
    let name = trim_chars(&head);
    if name.len() > 0 {
        Some(string_of(&name))
    } else {
        None
    }
}

/// The PowerShell script that shows a toast notification.
pub open spec fn toast_script(title: Seq<char>, message: Seq<char>) -> Seq<char> {
    "Add-Type -AssemblyName System.Windows.Forms; \n            Add-Type -AssemblyName System.Drawing; \n            $notification = [System.Windows.Forms.ToastNotification]::new(); \n            $notification.Title = \""@
        + title + "\"; \n            $notification.Content = \""@ + message
        + "\"; \n            $notification.Show()"@
}

/// The command that shows a desktop notification: the toast script run by
/// `powershell`.
pub open spec fn notification_command_spec(title: Seq<char>, message: Seq<char>) -> Seq<Seq<char>> {
    seq!["powershell"@, "-Command"@, toast_script(title, message)]
}

impl PlatformImpl {
    /// The Windows platform.
    pub fn new() -> Self {
        PlatformImpl
    }

    /// The arguments of the `ping` command that sends `count` packets to
    /// `target`: `-n <count> <target>`.
    pub fn ping_arguments(&self, target: &str, count: usize) -> (r: Vec<String>)
        ensures
            string_views(r@) == seq!["-n"@, decimal(count as nat), target@],
    {
        let mut r: Vec<String> = Vec::new();
        r.push(String::from_str("-n"));
        let c = decimal_chars(count as u64);
        r.push(string_of(&c));
        r.push(String::from_str(target));
        assert(string_views(r@) =~= seq!["-n"@, decimal(count as nat), target@]);
        r
    }

    /// The packet-loss figure in the output of `ping`: for the leftmost
    /// match of `(?:Lost\s*=\s*\d+\s*\((\d+)%\)|Loss\s*=\s*(\d+)%|(\d+)%\s+loss)`
    /// in the output read as UTF-8 with invalid sequences replaced, the
    /// group of the alternative that matched; nothing when nothing matched.
    pub fn parse_ping_output(&self, stdout: &[u8]) -> (r: Option<String>)
        ensures
            opt_string_view(r) == windows_loss_text(utf8_lossy(stdout@)),
    {
        let text = lossy_string(stdout);
        let chars = chars_of(text.as_str());
        match windows_loss_capture(&chars) {
            Some(v) => Some(string_of(&v)),
            None => None,
        }
    }

    /// The default gateway in the text that `route print -4` printed: the
    /// gateway of the first line that names one, else an error.
    pub fn parse_route_output(&self, output: &str) -> (r: Result<String, String>)
        ensures
            result_view(r) == route_output_gateway(lines(output@)),
    {
        let mut rest = chars_of(output);
        loop
            invariant
                route_output_gateway(lines(rest@)) == route_output_gateway(lines(output@)),
            decreases rest.len(),
        {
            if rest.len() == 0 {
                return Err(String::from_str("No default gateway found"));
            }
            let (line, next) = next_line(&rest);
            assert(lines(rest@).drop_first() =~= lines(next@));
            assert(lines(rest@)[0] == line@);
            match gateway_of_line(&line) {
                Some(g) => {
                    return Ok(string_of(&g));
                },
                None => {},
            }
            rest = next;
        }
    }

    /// The default gateway from a run of `route print -4`: an error when the
    /// command failed, else the gateway in its output read as UTF-8 with
    /// invalid sequences replaced.
    pub fn get_default_gateway(&self, route_succeeded: bool, stdout: &[u8]) -> (r: Result<
        String,
        String,
    >)
        ensures
            !route_succeeded ==> result_view(r) == Err::<Seq<char>, Seq<char>>(
                "Route command failed"@,
            ),
            route_succeeded ==> result_view(r) == route_output_gateway(
                lines(utf8_lossy(stdout@)),
            ),
    {
        if !route_succeeded {
            return Err(String::from_str("Route command failed"));
        }
        let text = lossy_string(stdout);
        self.parse_route_output(text.as_str())
    }

    /// The program and arguments that show a notification titled `title`
    /// with the text `message`.
    pub fn notification_command(&self, title: &str, message: &str) -> (r: Vec<String>)
        ensures
            string_views(r@) == notification_command_spec(title@, message@),
    {
        let mut script = String::from_str(
            "Add-Type -AssemblyName System.Windows.Forms; \n            Add-Type -AssemblyName System.Drawing; \n            $notification = [System.Windows.Forms.ToastNotification]::new(); \n            $notification.Title = \"",
        );
        script.append(title);
        script.append("\"; \n            $notification.Content = \"");
        script.append(message);
        script.append("\"; \n            $notification.Show()");
        let mut r: Vec<String> = Vec::new();
        r.push(String::from_str("powershell"));
        r.push(String::from_str("-Command"));
        r.push(script);
        assert(string_views(r@) =~= notification_command_spec(title@, message@));
        r
    }

    /// The adapters named in the text that `ipconfig /all` printed, in
    /// order.
    pub fn parse_ipconfig_output(&self, output: &str) -> (r: Vec<String>)
        ensures
            string_views(r@) == ipconfig_interfaces(lines(output@)),
    {
        let mut r: Vec<String> = Vec::new();
        let mut rest = chars_of(output);
        loop
            invariant
                string_views(r@) + ipconfig_interfaces(lines(rest@)) == ipconfig_interfaces(
                    lines(output@),
                ),
            decreases rest.len(),
        {
            if rest.len() == 0 {
                assert(string_views(r@) + ipconfig_interfaces(lines(rest@)) =~= string_views(r@));
                return r;
            }
            let (line, next) = next_line(&rest);
            assert(lines(rest@).drop_first() =~= lines(next@));
            assert(lines(rest@)[0] == line@);
            let ghost old_r = r@;
            match interface_of_line(&line) {
                Some(name) => {
                    r.push(name);
                    assert(string_views(r@) =~= string_views(old_r).push(
                        ipconfig_interface(line@).unwrap(),
                    ));
                    assert(string_views(r@) + ipconfig_interfaces(lines(next@)) =~= string_views(
                        old_r,
                    ) + ipconfig_interfaces(lines(rest@)));
                },
                None => {},
            }
            rest = next;
        }
    }

    /// The adapters named in the output of `ipconfig /all` read as UTF-8
    /// with invalid sequences replaced, in order.
    pub fn get_network_interfaces(&self, stdout: &[u8]) -> (r: Vec<String>)
        ensures
            string_views(r@) == ipconfig_interfaces(lines(utf8_lossy(stdout@))),
    {
        let text = lossy_string(stdout);
        self.parse_ipconfig_output(text.as_str())
    }
}

} // verus!
