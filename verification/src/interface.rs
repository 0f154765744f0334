//! Network interfaces and their byte counters, from the text of the attributes that
//! the kernel gives under `/sys/class/net`.

use crate::names::NameMap;
use crate::order::{by_key, law_by_key, lemma_placed_at, placed};
use crate::text::{
    blank, digit_value, has_prefix, is_space, law_no_digits, law_numeral_is_read,
    law_other_text_is_no_number, law_trim, law_trimmed_parts, law_without_leading,
    lemma_numeral_reads_back, not_after, numeral, parse_unsigned, same_text, starts_with, text_le,
    text_of, trim, trim_leading, trimmed, unsigned_text, without_leading,
};
use vstd::prelude::*;

verus! {

/// A logical network interface discovered on the host.
#[derive(Debug, PartialEq, Eq)]
pub struct Interface {
    /// Kernel interface name, e.g. `eth0`, `wlan0`, `enp3s0`.
    pub name: String,
    /// Human friendly display name.
    pub display_name: String,
    /// Link address (MAC) if present, `None` for e.g. loopback on some systems.
    pub mac: Option<String>,
    /// Whether the interface is administratively up (`IFF_UP` kernel flag).
    pub is_up: bool,
    /// Physical link carriers: true when `carrier` sysfs attr is `1`.
    pub carrier: bool,
    /// Interface type classification.
    pub kind: InterfaceKind,
    /// Cumulative bytes received since boot.
    pub rx_bytes: u64,
    /// Cumulative bytes transmitted since boot.
    pub tx_bytes: u64,
}

/// Coarse classification helper used by the UI to group interfaces.
#[derive(Debug, Clone, Copy, PartialEq, Eq, Structural, Hash)]
pub enum InterfaceKind {
    /// Wired ethernet.
    Ethernet,
    /// Wireless LAN.
    Wifi,
    /// Cellular / mobile data modems.
    Cellular,
    /// Loopback.
    Loopback,
    /// Virtual devices (bridges, bonds, tun/tap) that are not physical uplinks.
    Virtual,
    /// Unknown / unclassified.
    Other,
}

/// What an [`Interface`] holds.
pub struct InterfaceView {
    pub name: Seq<char>,
    pub display_name: Seq<char>,
    pub mac: Option<Seq<char>>,
    pub is_up: bool,
    pub carrier: bool,
    pub kind: InterfaceKind,
    pub rx_bytes: u64,
    pub tx_bytes: u64,
}

fn copy_text(s: &Option<String>) -> (r: Option<String>)
    ensures
        r == *s,
{
    match s {
        Some(t) => Some(t.clone()),
        None => None,
    }
}

impl Clone for Interface {
    fn clone(&self) -> (r: Self)
        ensures
            r == *self,
    {
        Interface {
            name: self.name.clone(),
            display_name: self.display_name.clone(),
            mac: copy_text(&self.mac),
            is_up: self.is_up,
            carrier: self.carrier,
            kind: self.kind,
            rx_bytes: self.rx_bytes,
            tx_bytes: self.tx_bytes,
        }
    }
}

impl View for Interface {
    type V = InterfaceView;

    open spec fn view(&self) -> InterfaceView {
        InterfaceView {
            name: self.name@,
            display_name: self.display_name@,
            mac: text_of(self.mac),
            is_up: self.is_up,
            carrier: self.carrier,
            kind: self.kind,
            rx_bytes: self.rx_bytes,
            tx_bytes: self.tx_bytes,
        }
    }
}

/// The text of one interface's attributes; `None` for what could not be read.
#[derive(Debug)]
pub struct SysfsEntry {
    pub name: String,
    pub operstate: Option<String>,
    pub flags: Option<String>,
    pub address: Option<String>,
    pub carrier: Option<String>,
    pub rx_bytes: Option<String>,
    pub tx_bytes: Option<String>,
    pub rx_packets: Option<String>,
    pub tx_packets: Option<String>,
}

impl Clone for SysfsEntry {
    fn clone(&self) -> (r: Self)
        ensures
            r == *self,
    {
        SysfsEntry {
            name: self.name.clone(),
            operstate: copy_text(&self.operstate),
            flags: copy_text(&self.flags),
            address: copy_text(&self.address),
            carrier: copy_text(&self.carrier),
            rx_bytes: copy_text(&self.rx_bytes),
            tx_bytes: copy_text(&self.tx_bytes),
            rx_packets: copy_text(&self.rx_packets),
            tx_packets: copy_text(&self.tx_packets),
        }
    }
}

/// The number that a counter attribute holds; zero where it holds none.
pub open spec fn counter_of(s: Option<String>) -> u64 {
    match s {
        Some(t) => match unsigned_text(trimmed(t@), 10) {
            Some(n) => n,
            None => 0,
        },
        None => 0,
    }
}

/// Whether an attribute holds `word` between white space.
pub open spec fn says(s: Option<String>, word: Seq<char>) -> bool {
    match s {
        Some(t) => trimmed(t@) == word,
        None => false,
    }
}

/// Whether the kernel flags, a hexadecimal number such as `0x1003`, have the lowest
/// bit (`IFF_UP`) set.
pub open spec fn flags_up(s: Option<String>) -> bool {
    match s {
        Some(t) => match unsigned_text(without_leading(trimmed(t@), "0x"@), 16) {
            Some(n) => n % 2 == 1,
            None => false,
        },
        None => false,
    }
}

/// The link address that an attribute holds, unless it is empty or all zero.
pub open spec fn link_address(s: Option<String>) -> Option<Seq<char>> {
    match s {
        Some(t) => if trimmed(t@).len() == 0 || trimmed(t@) == "00:00:00:00:00:00"@ {
            None
        } else {
            Some(trimmed(t@))
        },
        None => None,
    }
}

/// The class of the interface named `name`.
pub open spec fn kind_of(name: Seq<char>) -> InterfaceKind {
    if has_prefix(name, "lo"@) {
        InterfaceKind::Loopback
    } else if has_prefix(name, "wl"@) || has_prefix(name, "wlan"@) || has_prefix(name, "wifi"@) {
        InterfaceKind::Wifi
    } else if has_prefix(name, "wwan"@) || has_prefix(name, "rmnet"@) || has_prefix(name, "usb"@)
        || has_prefix(name, "eth-usb"@) {
        InterfaceKind::Cellular
    } else if has_prefix(name, "en"@) || has_prefix(name, "eth"@) || has_prefix(name, "em"@) {
        InterfaceKind::Ethernet
    } else if has_prefix(name, "virbr"@) || has_prefix(name, "br"@) || has_prefix(name, "docker"@)
        || has_prefix(name, "tun"@) || has_prefix(name, "tap"@) || has_prefix(name, "veth"@)
        || has_prefix(name, "bond"@) || has_prefix(name, "netmux"@) || has_prefix(name, "vpn"@)
        || has_prefix(name, "utun"@) || has_prefix(name, "tailscale"@) {
        InterfaceKind::Virtual
    } else {
        InterfaceKind::Other
    }
}

/// The interface that the attributes describe.
pub open spec fn described(e: SysfsEntry) -> InterfaceView {
    InterfaceView {
        name: e.name@,
        display_name: e.name@,
        mac: link_address(e.address),
        is_up: flags_up(e.flags),
        carrier: says(e.carrier, "1"@),
        kind: kind_of(e.name@),
        rx_bytes: counter_of(e.rx_bytes),
        tx_bytes: counter_of(e.tx_bytes),
    }
}

/// The number that a counter attribute holds; zero where it holds none.
pub fn read_u64(s: &Option<String>) -> (r: u64)
    ensures
        r == counter_of(*s),
{
    match s {
        Some(t) => match parse_unsigned(trim(t.as_str()), 10) {
            Some(n) => n,
            None => 0,
        },
        None => 0,
    }
}

/// Whether an attribute holds `1`.
pub fn read_bool(s: &Option<String>) -> (r: bool)
    ensures
        r == says(*s, "1"@),
{
    holds(s, "1")
}

/// Whether an attribute holds `word` between white space.
pub fn holds(s: &Option<String>, word: &str) -> (r: bool)
    ensures
        r == says(*s, word@),
{
    match s {
        Some(t) => same_text(trim(t.as_str()), word),
        None => false,
    }
}

/// Whether the kernel flags have the lowest bit (`IFF_UP`) set.
pub fn read_up(s: &Option<String>) -> (r: bool)
    ensures
        r == flags_up(*s),
{
    proof {
        reveal_strlit("0x");
    }
    match s {
        Some(t) => match parse_unsigned(trim_leading(trim(t.as_str()), "0x"), 16) {
            Some(n) => n % 2 == 1,
            None => false,
        },
        None => false,
    }
}

fn read_mac(s: &Option<String>) -> (r: Option<String>)
    ensures
        text_of(r) == link_address(*s),
{
    match s {
        Some(t) => {
            let text = trim(t.as_str());
            if text.is_empty() || same_text(text, "00:00:00:00:00:00") {
                None
            } else {
                Some(text.to_string())
            }
        },
        None => None,
    }
}

/// The class of the interface named `name`. Its operational state decides nothing.
pub fn classify(name: &str, operstate: &str) -> (r: InterfaceKind)
    ensures
        r == kind_of(name@),
{
    if starts_with(name, "lo") {
        InterfaceKind::Loopback
    } else if starts_with(name, "wl") || starts_with(name, "wlan") || starts_with(name, "wifi") {
        InterfaceKind::Wifi
    } else if starts_with(name, "wwan") || starts_with(name, "rmnet") || starts_with(name, "usb")
        || starts_with(name, "eth-usb") {
        InterfaceKind::Cellular
    } else if starts_with(name, "en") || starts_with(name, "eth") || starts_with(name, "em") {
        InterfaceKind::Ethernet
    } else if starts_with(name, "virbr") || starts_with(name, "br") || starts_with(name, "docker")
        || starts_with(name, "tun") || starts_with(name, "tap") || starts_with(name, "veth")
        || starts_with(name, "bond") || starts_with(name, "netmux") || starts_with(name, "vpn")
        || starts_with(name, "utun") || starts_with(name, "tailscale") {
        InterfaceKind::Virtual
    } else {
        InterfaceKind::Other
    }
}

/// The interface that the attributes describe.
pub fn describe(e: &SysfsEntry) -> (r: Interface)
    ensures
        r@ == described(*e),
{
    let operstate = match &e.operstate {
        Some(t) => trim(t.as_str()),
        None => "unknown",
    };
    Interface {
        name: e.name.clone(),
        display_name: e.name.clone(),
        mac: read_mac(&e.address),
        is_up: read_up(&e.flags),
        carrier: read_bool(&e.carrier),
        kind: classify(e.name.as_str(), operstate),
        rx_bytes: read_u64(&e.rx_bytes),
        tx_bytes: read_u64(&e.tx_bytes),
    }
}

/// What the interfaces in `v` hold.
pub open spec fn views(v: Seq<Interface>) -> Seq<InterfaceView> {
    v.map_values(|i: Interface| i@)
}

/// The name of an interface.
pub open spec fn name_key() -> spec_fn(InterfaceView) -> Seq<char> {
    |i: InterfaceView| i.name
}

/// The interfaces that `entries` describe, ordered by name.
pub fn enumerate(entries: &Vec<SysfsEntry>) -> (r: Vec<Interface>)
    ensures
        views(r@) == by_key(entries@.map_values(|e: SysfsEntry| described(e)), name_key()),
{
    let mut out: Vec<Interface> = Vec::new();
    let mut i: usize = 0;
    let ghost all = entries@.map_values(|e: SysfsEntry| described(e));
    assert(views(out@) =~= by_key(all.take(0), name_key()));
    while i < entries.len()
        invariant
            i <= entries@.len(),
            all == entries@.map_values(|e: SysfsEntry| described(e)),
            views(out@) == by_key(all.take(i as int), name_key()),
        decreases entries@.len() - i,
    {
        let next = describe(&entries[i]);
        let ghost before = views(out@);
        let ghost x = next@;
        let mut p: usize = out.len();
        while p > 0 && !not_after(out[p - 1].name.as_str(), next.name.as_str())
            invariant
                p <= out@.len(),
                before == views(out@),
                x == next@,
                forall|j: int|
                    p <= j < before.len() ==> !text_le(
                        name_key()(#[trigger] before[j]),
                        name_key()(x),
                    ),
            decreases p,
        {
            p = p - 1;
        }
        proof {
            lemma_placed_at(before, x, name_key(), p as int);
            assert(all.take(i + 1).drop_last() =~= all.take(i as int));
            assert(all.take(i + 1).last() == x);
        }
        out.insert(p, next);
        assert(views(out@) =~= before.insert(p as int, x));
        i = i + 1;
    }
    assert(all.take(i as int) =~= all);
    out
}

/// The byte counters (received, transmitted) of every name in `entries`; the last
/// entry of a name counts.
pub open spec fn counters(entries: Seq<SysfsEntry>) -> Map<Seq<char>, (u64, u64)>
    decreases entries.len(),
{
    if entries.len() == 0 {
        Map::empty()
    } else {
        let e = entries.last();
        counters(entries.drop_last()).insert(
            e.name@,
            (counter_of(e.rx_bytes), counter_of(e.tx_bytes)),
        )
    }
}

/// Snapshot counter bytes for every interface (for delta computation).
pub fn counter_map(entries: &Vec<SysfsEntry>) -> (r: NameMap<(u64, u64)>)
    ensures
        r@ == counters(entries@),
{
    let mut map: NameMap<(u64, u64)> = NameMap::new();
    let mut i: usize = 0;
    assert(entries@.take(0) =~= Seq::<SysfsEntry>::empty());
    while i < entries.len()
        invariant
            i <= entries@.len(),
            map@ == counters(entries@.take(i as int)),
        decreases entries@.len() - i,
    {
        let e = &entries[i];
        proof {
            assert(entries@.take(i + 1).drop_last() =~= entries@.take(i as int));
        }
        map.insert(e.name.clone(), (read_u64(&e.rx_bytes), read_u64(&e.tx_bytes)));
        i = i + 1;
    }
    assert(entries@.take(i as int) =~= entries@);
    map
}

/// Whether an attribute holds a word is whether it holds nothing else but white space
/// around it.
pub proof fn law_attribute_says(t: String, word: Seq<char>)
    requires
        word.len() > 0,
        !is_space(word[0]),
        !is_space(word.last()),
    ensures
        says(Some(t), word) <==> exists|a: Seq<char>, b: Seq<char>|
            blank(a) && blank(b) && t@ == #[trigger] (a + word + b),
        !says(None, word),
{
    law_trimmed_parts(t@);
    if exists|a: Seq<char>, b: Seq<char>| blank(a) && blank(b) && t@ == #[trigger] (a + word + b) {
        let (a, b) = choose|a: Seq<char>, b: Seq<char>|
            blank(a) && blank(b) && t@ == #[trigger] (a + word + b);
        law_trim(a, word, b);
    }
}

/// A counter is the decimal number that its attribute holds, with white space around it
/// or not, and zero where the number does not fit in 64 bits.
pub proof fn law_counter_is_read(t: String, n: nat, a: Seq<char>, b: Seq<char>)
    requires
        blank(a),
        blank(b),
        t@ == a + numeral(n, 10) + b,
    ensures
        counter_of(Some(t)) == if n <= u64::MAX {
            n
        } else {
            0
        },
        counter_of(None) == 0,
{
    lemma_numeral_reads_back(n, 10);
    let s = numeral(n, 10);
    assert(digit_value(s[0], 10) is Some && digit_value(s[s.len() - 1], 10) is Some);
    law_trim(a, s, b);
    law_numeral_is_read(n, 10);
}

/// An attribute without digits only, but for a plus sign in front and white space around
/// them, counts as zero.
pub proof fn law_other_counter_is_zero(t: String, i: int)
    requires
        trimmed(t@).len() == 0 || (0 <= i < trimmed(t@).len() && (trimmed(t@)[i] < '0' || trimmed(
            t@,
        )[i] > '9') && (i > 0 || trimmed(t@)[i] != '+')),
    ensures
        counter_of(Some(t)) == 0,
{
    if trimmed(t@).len() > 0 {
        law_no_digits(trimmed(t@)[i], 10);
    }
    law_other_text_is_no_number(trimmed(t@), 10, i);
}

/// An interface is up exactly when the lowest bit of its kernel flags is set, which are
/// written as a hexadecimal number behind `0x`, with white space around it or not.
pub proof fn law_flags_are_read(t: String, n: nat, a: Seq<char>, b: Seq<char>)
    requires
        n <= u64::MAX,
        blank(a),
        blank(b),
        t@ == a + (seq!['0', 'x'] + numeral(n, 16)) + b,
    ensures
        flags_up(Some(t)) <==> n % 2 == 1,
        !flags_up(None),
{
    reveal_strlit("0x");
    lemma_numeral_reads_back(n, 16);
    let d = numeral(n, 16);
    let s = seq!['0', 'x'] + d;
    assert(digit_value(d[d.len() - 1], 16) is Some);
    assert(s.last() == d[d.len() - 1]);
    law_trim(a, s, b);
    assert("0x"@ =~= seq!['0', 'x']);
    law_without_leading(d, "0x"@);
    assert(!has_prefix(d, "0x"@)) by {
        if has_prefix(d, "0x"@) {
            assert(d.take(2)[1] == 'x' && d[1] == 'x');
            assert(digit_value(d[1], 16) is Some);
        }
    }
    law_numeral_is_read(n, 16);
}

/// A link address is what its attribute holds between white space, unless that is nothing
/// or all zero.
pub proof fn law_link_address(t: String, a: Seq<char>, core: Seq<char>, b: Seq<char>)
    requires
        blank(a),
        blank(b),
        core.len() > 0 ==> !is_space(core[0]) && !is_space(core.last()),
        t@ == a + core + b,
    ensures
        link_address(Some(t)) == if core.len() == 0 || core == "00:00:00:00:00:00"@ {
            None::<Seq<char>>
        } else {
            Some(core)
        },
        link_address(None) is None,
{
    law_trim(a, core, b);
}

/// `p` in front of `s` gives a text that starts with `p` and with nothing of other letters.
proof fn lemma_in_front(p: Seq<char>, s: Seq<char>)
    requires
        p.len() >= 2,
    ensures
        has_prefix(p + s, p),
        forall|q: Seq<char>|
            q.len() >= 2 && #[trigger] has_prefix(p + s, q) ==> q[0] == p[0] && q[1] == p[1],
{
    let n = p + s;
    assert(n.take(p.len() as int) =~= p);
    assert forall|q: Seq<char>| q.len() >= 2 && #[trigger] has_prefix(n, q) implies q[0] == p[0]
        && q[1] == p[1] by {
        let t = n.take(q.len() as int);
        assert(t[0] == n[0] && t[1] == n[1]);
    }
}

/// The first letters of the prefixes that classes go by.
proof fn lemma_letters()
    ensures
        "lo"@.len() == 2 && "lo"@[0] == 'l' && "lo"@[1] == 'o',
        "wl"@.len() == 2 && "wl"@[0] == 'w' && "wl"@[1] == 'l',
        "wlan"@.len() == 4 && "wlan"@[0] == 'w' && "wlan"@[1] == 'l',
        "wifi"@.len() == 4 && "wifi"@[0] == 'w' && "wifi"@[1] == 'i',
        "wwan"@.len() == 4 && "wwan"@[0] == 'w' && "wwan"@[1] == 'w',
        "rmnet"@.len() == 5 && "rmnet"@[0] == 'r' && "rmnet"@[1] == 'm',
        "usb"@.len() == 3 && "usb"@[0] == 'u' && "usb"@[1] == 's',
        "eth-usb"@.len() == 7 && "eth-usb"@[0] == 'e' && "eth-usb"@[1] == 't',
        "en"@.len() == 2 && "en"@[0] == 'e' && "en"@[1] == 'n',
        "eth"@.len() == 3 && "eth"@[0] == 'e' && "eth"@[1] == 't',
        "em"@.len() == 2 && "em"@[0] == 'e' && "em"@[1] == 'm',
        "virbr"@.len() == 5 && "virbr"@[0] == 'v' && "virbr"@[1] == 'i',
        "br"@.len() == 2 && "br"@[0] == 'b' && "br"@[1] == 'r',
        "docker"@.len() == 6 && "docker"@[0] == 'd' && "docker"@[1] == 'o',
        "tun"@.len() == 3 && "tun"@[0] == 't' && "tun"@[1] == 'u',
        "tap"@.len() == 3 && "tap"@[0] == 't' && "tap"@[1] == 'a',
        "veth"@.len() == 4 && "veth"@[0] == 'v' && "veth"@[1] == 'e',
        "bond"@.len() == 4 && "bond"@[0] == 'b' && "bond"@[1] == 'o',
        "netmux"@.len() == 6 && "netmux"@[0] == 'n' && "netmux"@[1] == 'e',
        "vpn"@.len() == 3 && "vpn"@[0] == 'v' && "vpn"@[1] == 'p',
        "utun"@.len() == 4 && "utun"@[0] == 'u' && "utun"@[1] == 't',
        "tailscale"@.len() == 9 && "tailscale"@[0] == 't' && "tailscale"@[1] == 'a',
{
    reveal_strlit("lo");
    reveal_strlit("wl");
    reveal_strlit("wlan");
    reveal_strlit("wifi");
    reveal_strlit("wwan");
    reveal_strlit("rmnet");
    reveal_strlit("usb");
    reveal_strlit("eth-usb");
    reveal_strlit("en");
    reveal_strlit("eth");
    reveal_strlit("em");
    reveal_strlit("virbr");
    reveal_strlit("br");
    reveal_strlit("docker");
    reveal_strlit("tun");
    reveal_strlit("tap");
    reveal_strlit("veth");
    reveal_strlit("bond");
    reveal_strlit("netmux");
    reveal_strlit("vpn");
    reveal_strlit("utun");
    reveal_strlit("tailscale");
}

/// Names that start with `lo` are loopback interfaces.
pub proof fn law_loopback_names(s: Seq<char>)
    ensures
        kind_of("lo"@ + s) == InterfaceKind::Loopback,
{
    lemma_letters();
    lemma_in_front("lo"@, s);
}

/// Names that start as those of wireless interfaces do are wireless.
pub proof fn law_wifi_names(s: Seq<char>)
    ensures
        kind_of("wl"@ + s) == InterfaceKind::Wifi,
        kind_of("wlan"@ + s) == InterfaceKind::Wifi,
        kind_of("wifi"@ + s) == InterfaceKind::Wifi,
{
    lemma_letters();
    lemma_in_front("wl"@, s);
    lemma_in_front("wlan"@, s);
    lemma_in_front("wifi"@, s);
}

/// Names that start as those of modems do are cellular.
pub proof fn law_cellular_names(s: Seq<char>)
    ensures
        kind_of("wwan"@ + s) == InterfaceKind::Cellular,
        kind_of("rmnet"@ + s) == InterfaceKind::Cellular,
        kind_of("usb"@ + s) == InterfaceKind::Cellular,
        kind_of("eth-usb"@ + s) == InterfaceKind::Cellular,
{
    lemma_letters();
    lemma_in_front("wwan"@, s);
    lemma_in_front("rmnet"@, s);
    lemma_in_front("usb"@, s);
    lemma_in_front("eth-usb"@, s);
}

/// Names that start as those of wired interfaces do are wired, but for `eth-usb`, a modem.
pub proof fn law_ethernet_names(s: Seq<char>)
    requires
        !has_prefix(s, "-usb"@),
    ensures
        kind_of("en"@ + s) == InterfaceKind::Ethernet,
        kind_of("eth"@ + s) == InterfaceKind::Ethernet,
        kind_of("em"@ + s) == InterfaceKind::Ethernet,
{
    lemma_letters();
    lemma_in_front("en"@, s);
    lemma_in_front("eth"@, s);
    lemma_in_front("em"@, s);
    reveal_strlit("eth");
    reveal_strlit("eth-usb");
    reveal_strlit("-usb");
    let n = "eth"@ + s;
    if has_prefix(n, "eth-usb"@) {
        let t = n.take(7);
        assert(t == "eth-usb"@);
        assert(s.take(4) =~= "-usb"@) by {
            assert(n[3] == t[3] && n[4] == t[4] && n[5] == t[5] && n[6] == t[6]);
            assert(s[0] == n[3] && s[1] == n[4] && s[2] == n[5] && s[3] == n[6]);
        }
    }
    assert(!has_prefix("en"@ + s, "eth-usb"@));
    assert(!has_prefix("em"@ + s, "eth-usb"@));
}

/// Names that start as those of bridges, tunnels and other virtual devices do are virtual.
pub proof fn law_virtual_names(s: Seq<char>)
    ensures
        kind_of("virbr"@ + s) == InterfaceKind::Virtual,
        kind_of("br"@ + s) == InterfaceKind::Virtual,
        kind_of("docker"@ + s) == InterfaceKind::Virtual,
        kind_of("tun"@ + s) == InterfaceKind::Virtual,
        kind_of("tap"@ + s) == InterfaceKind::Virtual,
        kind_of("veth"@ + s) == InterfaceKind::Virtual,
        kind_of("bond"@ + s) == InterfaceKind::Virtual,
        kind_of("netmux"@ + s) == InterfaceKind::Virtual,
        kind_of("vpn"@ + s) == InterfaceKind::Virtual,
        kind_of("utun"@ + s) == InterfaceKind::Virtual,
        kind_of("tailscale"@ + s) == InterfaceKind::Virtual,
{
    lemma_letters();
    lemma_in_front("virbr"@, s);
    lemma_in_front("br"@, s);
    lemma_in_front("docker"@, s);
    lemma_in_front("tun"@, s);
    lemma_in_front("tap"@, s);
    lemma_in_front("veth"@, s);
    lemma_in_front("bond"@, s);
    lemma_in_front("netmux"@, s);
    lemma_in_front("vpn"@, s);
    lemma_in_front("utun"@, s);
    lemma_in_front("tailscale"@, s);
}

/// Names that start as none of the known kinds do are of no known kind.
pub proof fn law_other_names(name: Seq<char>)
    requires
        !has_prefix(name, "lo"@),
        !has_prefix(name, "wl"@),
        !has_prefix(name, "wlan"@),
        !has_prefix(name, "wifi"@),
        !has_prefix(name, "wwan"@),
        !has_prefix(name, "rmnet"@),
        !has_prefix(name, "usb"@),
        !has_prefix(name, "eth-usb"@),
        !has_prefix(name, "en"@),
        !has_prefix(name, "eth"@),
        !has_prefix(name, "em"@),
        !has_prefix(name, "virbr"@),
        !has_prefix(name, "br"@),
        !has_prefix(name, "docker"@),
        !has_prefix(name, "tun"@),
        !has_prefix(name, "tap"@),
        !has_prefix(name, "veth"@),
        !has_prefix(name, "bond"@),
        !has_prefix(name, "netmux"@),
        !has_prefix(name, "vpn"@),
        !has_prefix(name, "utun"@),
        !has_prefix(name, "tailscale"@),
    ensures
        kind_of(name) == InterfaceKind::Other,
{
}

/// What an entry's attributes describe: each field comes from its own attribute, and the
/// kind from the name alone.
pub proof fn law_description(e: SysfsEntry)
    ensures
        ({
            let i = described(e);
            &&& i.name == e.name@
            &&& i.display_name == e.name@
            &&& i.mac == link_address(e.address)
            &&& i.is_up == flags_up(e.flags)
            &&& i.carrier <==> says(e.carrier, "1"@)
            &&& i.kind == kind_of(e.name@)
            &&& i.rx_bytes == counter_of(e.rx_bytes)
            &&& i.tx_bytes == counter_of(e.tx_bytes)
        }),
{
}

/// Interfaces are listed in the order of their names: one for each entry, as it describes
/// it, and no others.
pub proof fn law_listing(entries: Seq<SysfsEntry>, i: int)
    requires
        0 <= i < entries.len(),
    ensures
        ({
            let all = by_key(entries.map_values(|e: SysfsEntry| described(e)), name_key());
            &&& all.len() == entries.len()
            &&& all.contains(described(entries[i]))
            &&& exists|k: int| 0 <= k < entries.len() && #[trigger] described(entries[k]) == all[i]
            &&& i > 0 ==> text_le(all[i - 1].name, all[i].name)
        }),
{
    broadcast use vstd::seq_lib::group_to_multiset_ensures;

    let given = entries.map_values(|e: SysfsEntry| described(e));
    let all = by_key(given, name_key());
    law_by_key(given, name_key());
    assert(given[i] == described(entries[i]));
    assert(given.contains(described(entries[i])));
    assert(given.to_multiset().count(described(entries[i])) > 0);
    assert(all.contains(all[i]));
    assert(all.to_multiset().count(all[i]) > 0);
    assert(given.contains(all[i]));
    let k = given.index_of(all[i]);
    assert(described(entries[k]) == all[i]);
    if i > 0 {
        assert(text_le(name_key()(all[i - 1]), name_key()(all[i])));
    }
}

/// The byte counters of a name are those of its last entry, and a name without an entry
/// has none.
pub proof fn law_counters(entries: Seq<SysfsEntry>, name: Seq<char>, i: int)
    requires
        0 <= i <= entries.len(),
        i < entries.len() ==> entries[i].name@ == name,
        forall|j: int|
            0 <= j < entries.len() && (i < j || i == entries.len()) ==> (#[trigger] entries[j]).name@
                != name,
    ensures
        i == entries.len() ==> !counters(entries).contains_key(name),
        i < entries.len() ==> counters(entries).contains_key(name) && counters(entries)[name] == (
            counter_of(entries[i].rx_bytes),
            counter_of(entries[i].tx_bytes),
        ),
    decreases entries.len(),
{
    if entries.len() > 0 && i != entries.len() - 1 {
        let head = entries.drop_last();
        let at = if i == entries.len() {
            head.len() as int
        } else {
            i
        };
        assert(entries[entries.len() - 1].name@ != name);
        assert forall|j: int|
            0 <= j < head.len() && (at < j || at == head.len()) implies (#[trigger] head[j]).name@
            != name by {
            assert(head[j] == entries[j]);
        }
        law_counters(head, name, at);
    }
}

} // verus!
