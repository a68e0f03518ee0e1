use packet_loss_monitor::platform::{linux, macos, windows};
use regex::Regex;

struct Lcg(u64);

impl Lcg {
    fn next(&mut self) -> u64 {
        self.0 = self.0.wrapping_mul(6364136223846793005).wrapping_add(1442695040888963407);
        self.0 >> 33
    }
}

const PIECES: &[&str] = &[
    "0", "1", "25", "9", ".", "%", " ", "\t", "\u{a0}", "\u{663}", "x", "packet", "loss", "pack",
    "Lost", "Loss", "=", "(", ")", "%)", " packet loss", "% packet", "Lost = ", "Loss = ", "\n",
];

fn sample(rng: &mut Lcg) -> String {
    let n = (rng.next() % 12) as usize;
    let mut s = String::new();
    for _ in 0..n {
        s.push_str(PIECES[(rng.next() as usize) % PIECES.len()]);
    }
    s
}

fn group(re: &Regex, text: &str) -> Option<String> {
    let caps = re.captures(text)?;
    caps.get(1)
        .or_else(|| caps.get(2))
        .or_else(|| caps.get(3))
        .map(|m| m.as_str().to_string())
}

#[test]
fn loss_figure_agrees_with_the_regex_crate() {
    let linux_re = Regex::new(r"(\d+\.?\d*)%\s*packet\s+loss").unwrap();
    let macos_re = Regex::new(r"(\d+\.?\d*)\s*%\s*packet\s+loss").unwrap();
    let windows_re =
        Regex::new(r"(?:Lost\s*=\s*\d+\s*\((\d+)%\)|Loss\s*=\s*(\d+)%|(\d+)%\s+loss)").unwrap();
    let (l, m, w) = (
        linux::PlatformImpl::new(),
        macos::PlatformImpl::new(),
        windows::PlatformImpl::new(),
    );
    let mut rng = Lcg(0x5eed);
    for _ in 0..3000 {
        let text = sample(&mut rng);
        assert_eq!(l.parse_ping_output(text.as_bytes()), group(&linux_re, &text), "{:?}", text);
        assert_eq!(m.parse_ping_output(text.as_bytes()), group(&macos_re, &text), "{:?}", text);
        assert_eq!(w.parse_ping_output(text.as_bytes()), group(&windows_re, &text), "{:?}", text);
    }
}
