//! Decisions of the Wi-Fi Direct link: whom a datagram is from, and what the
//! supplicant is asked for.

use vstd::prelude::*;

use crate::text::{
    chars_of, decimal, is_numeral, is_one_line, is_solid, is_space, law_decimal_is_the_numeral,
    law_last_line, law_line_feed_parts_lines, law_solid_text_is_one_word,
    law_white_space_parts_words, line_end, lines, next_word, push_decimal, reads, string_of, words,
};

verus! {

/// Hardware address of an entry that has not been resolved.
pub const UNRESOLVED_MAC: &'static str = "00:00:00:00:00:00";

/// How a Wi-Fi Direct link is set up.
#[derive(Debug)]
pub struct WifiDirectConfig {
    pub interface: String,
    pub name: String,
    pub port: u16,
}

/// Where a datagram came from. Addresses of the longer kind are kept as text.
#[derive(Debug)]
pub enum Source {
    V4([u8; 4]),
    V6(String),
}

/// The dotted form of an address, the only one in which a neighbour table may
/// give it.
pub open spec fn dotted(ip: Seq<u8>) -> Seq<char> {
    decimal(ip[0] as nat) + seq!['.'] + decimal(ip[1] as nat) + seq!['.'] + decimal(ip[2] as nat)
        + seq!['.'] + decimal(ip[3] as nat)
}

/// The hardware address that a row of the neighbour table gives for `ip`: its
/// fourth column, when the first column is the address.
pub open spec fn row_mac(row: Seq<char>, ip: Seq<char>) -> Option<Seq<char>> {
    let columns = words(row);
    if columns.len() >= 4 && columns[0] == ip && columns[3] != UNRESOLVED_MAC@ {
        Some(columns[3])
    } else {
        None
    }
}

/// The hardware address that the first row with one gives for `ip`.
pub open spec fn first_mac(rows: Seq<Seq<char>>, ip: Seq<char>) -> Option<Seq<char>>
    decreases rows.len(),
{
    if rows.len() == 0 {
        None
    } else if row_mac(rows[0], ip) is Some {
        row_mac(rows[0], ip)
    } else {
        first_mac(rows.drop_first(), ip)
    }
}

/// The rows of a neighbour table: its lines after the first, which is a
/// heading.
pub open spec fn table_rows(table: Seq<char>) -> Seq<Seq<char>> {
    if lines(table).len() == 0 {
        seq![]
    } else {
        lines(table).drop_first()
    }
}

/// The hardware address that a neighbour table gives for `ip`.
pub open spec fn table_mac(table: Seq<char>, ip: Seq<char>) -> Option<Seq<char>> {
    first_mac(table_rows(table), ip)
}

/// The name of the peer behind a datagram: its hardware address where the
/// neighbour table has one, else its address.
pub open spec fn peer_of(source: Source, table: Option<Seq<char>>) -> Seq<char> {
    match source {
        Source::V4(ip) => match table {
            Some(text) => match table_mac(text, dotted(ip@)) {
                Some(mac) => mac,
                None => dotted(ip@),
            },
            None => dotted(ip@),
        },
        Source::V6(text) => text@,
    }
}

/// The part of a path after the last slash.
pub open spec fn last_segment(path: Seq<char>) -> Seq<char>
    decreases path.len(),
{
    if path.len() == 0 || path.last() == '/' {
        seq![]
    } else {
        last_segment(path.drop_last()).push(path.last())
    }
}

/// The dotted form of an address.
pub fn dotted_text(ip: &[u8; 4]) -> (text: String)
    ensures
        text@ == dotted(ip@),
{
    let mut text = String::new();
    push_decimal(&mut text, ip[0]);
    text.push('.');
    push_decimal(&mut text, ip[1]);
    text.push('.');
    push_decimal(&mut text, ip[2]);
    text.push('.');
    push_decimal(&mut text, ip[3]);
    assert(text@ =~= dotted(ip@));
    text
}

/// Looks up the hardware address that `chars[from..end]`, a row of the
/// neighbour table, gives for `ip`.
fn find_in_row(chars: &Vec<char>, from: usize, end: usize, ip: &Vec<char>) -> (mac: Option<String>)
    requires
        from <= end <= chars@.len(),
    ensures
        match mac {
            Some(text) => row_mac(chars@.subrange(from as int, end as int), ip@) == Some(text@),
            None => row_mac(chars@.subrange(from as int, end as int), ip@) is None,
        },
{
    let Some((start0, stop0)) = next_word(chars, from, end) else {
        return None;
    };
    let Some((_, stop1)) = next_word(chars, stop0, end) else {
        return None;
    };
    let Some((_, stop2)) = next_word(chars, stop1, end) else {
        return None;
    };
    let Some((start3, stop3)) = next_word(chars, stop2, end) else {
        return None;
    };
    let ghost columns = words(chars@.subrange(from as int, end as int));
    assert(columns[0] == chars@.subrange(start0 as int, stop0 as int));
    assert(columns[3] == chars@.subrange(start3 as int, stop3 as int));
    if reads(chars, start0, stop0, ip) && !reads(chars, start3, stop3, &chars_of(UNRESOLVED_MAC)) {
        Some(string_of(chars, start3, stop3))
    } else {
        None
    }
}

/// Looks up the hardware address that a neighbour table gives for `ip`.
pub fn find_mac(table: &str, ip: &[u8; 4]) -> (mac: Option<String>)
    ensures
        match mac {
            Some(text) => table_mac(table@, dotted(ip@)) == Some(text@),
            None => table_mac(table@, dotted(ip@)) is None,
        },
{
    let chars = chars_of(table);
    let wanted = chars_of(dotted_text(ip).as_str());
    let heading_end: usize = line_end(&chars, 0);
    let ghost rows = table_rows(table@);
    assert(chars@.skip(0) =~= chars@);
    if heading_end >= chars.len() {
        assert(rows.len() == 0);
        return None;
    }
    let mut from: usize = heading_end + 1;
    assert(rows =~= lines(chars@.skip(from as int)));
    while from < chars.len()
        invariant
            from <= chars@.len(),
            wanted@ == dotted(ip@),
            chars@ == table@,
            table_mac(table@, dotted(ip@)) == first_mac(
                lines(chars@.skip(from as int)),
                dotted(ip@),
            ),
        decreases chars@.len() - from,
    {
        let end: usize = line_end(&chars, from);
        let ghost rest = chars@.skip(from as int);
        assert(rest.take(end - from) =~= chars@.subrange(from as int, end as int));
        assert(lines(rest).len() > 0);
        assert(lines(rest)[0] =~= chars@.subrange(from as int, end as int));
        let found = find_in_row(&chars, from, end, &wanted);
        if found.is_some() {
            return found;
        }
        if end >= chars.len() {
            assert(lines(rest).drop_first() =~= Seq::<Seq<char>>::empty());
            assert(first_mac(lines(rest).drop_first(), dotted(ip@)) is None);
            return None;
        }
        assert(lines(rest).drop_first() =~= lines(rest.skip(end - from + 1)));
        assert(rest.skip(end - from + 1) =~= chars@.skip(end + 1));
        from = end + 1;
    }
    None
}

/// The name of the peer behind a datagram. `table` is the neighbour table, if
/// it could be read.
pub fn peer_name(source: Source, table: Option<&str>) -> (peer: String)
    ensures
        peer@ == peer_of(
            source,
            match table {
                Some(text) => Some(text@),
                None => None,
            },
        ),
{
    match source {
        Source::V4(ip) => {
            let found = match table {
                Some(text) => find_mac(text, &ip),
                None => None,
            };
            match found {
                Some(mac) => mac,
                None => dotted_text(&ip),
            }
        },
        Source::V6(text) => text,
    }
}

/// The hardware address at the end of the path of a device that was found.
pub fn mac_of_path(path: &str) -> (mac: Option<String>)
    ensures
        match mac {
            Some(text) => text@ == last_segment(path@) && text@.len() > 0,
            None => last_segment(path@).len() == 0,
        },
{
    let chars = chars_of(path);
    let mut start: usize = chars.len();
    assert(chars@.take(start as int) =~= chars@);
    while start > 0 && chars[start - 1] != '/'
        invariant
            start <= chars@.len(),
            last_segment(chars@) == last_segment(chars@.take(start as int)) + chars@.skip(
                start as int,
            ),
        decreases start,
    {
        let ghost head = chars@.take(start as int);
        assert(head.drop_last() =~= chars@.take(start - 1));
        assert(last_segment(head.drop_last()).push(head.last()) + chars@.skip(start as int)
            =~= last_segment(head.drop_last()) + chars@.skip(start - 1));
        start -= 1;
    }
    assert(last_segment(chars@.take(start as int)) =~= Seq::<char>::empty());
    assert(last_segment(chars@) =~= chars@.skip(start as int));
    if start == chars.len() {
        return None;
    }
    let mac = string_of(&chars, start, chars.len());
    assert(mac@ =~= chars@.skip(start as int));
    Some(mac)
}

/// A character that may stand in an element of an object path.
pub open spec fn is_name_char(c: char) -> bool {
    'a' <= c <= 'z' || 'A' <= c <= 'Z' || '0' <= c <= '9' || c == '_'
}

/// Whether `path` is a D-Bus object path: a slash alone, or elements made of
/// ASCII letters, digits and underscores, each after a slash.
pub open spec fn is_object_path(path: Seq<char>) -> bool {
    &&& path.len() > 0
    &&& path[0] == '/'
    &&& path.len() > 1 ==> path.last() != '/'
    &&& forall|i: int| 0 <= i < path.len() ==> is_name_char(#[trigger] path[i]) || path[i] == '/'
    &&& forall|i: int|
        0 < i < path.len() && #[trigger] path[i] == '/' ==> path[i - 1] != '/'
}

/// Calls `zbus::zvariant::ObjectPath::try_from`, which accepts exactly the
/// texts that are object paths.
#[verifier::external_body]
fn accepts_object_path(path: &str) -> (accepted: bool)
    ensures
        accepted == is_object_path(path@),
{
    zbus::zvariant::ObjectPath::try_from(path).is_ok()
}

/// Something the supplicant is told: a text, or the path of an object.
#[derive(Debug)]
pub enum Argument {
    Text(String),
    Path(String),
}

/// The value of an [`Argument`].
pub enum ArgumentView {
    Text(Seq<char>),
    Path(Seq<char>),
}

impl View for Argument {
    type V = ArgumentView;

    open spec fn view(&self) -> ArgumentView {
        match self {
            Argument::Text(text) => ArgumentView::Text(text@),
            Argument::Path(path) => ArgumentView::Path(path@),
        }
    }
}

/// Named arguments, in no particular order.
pub type Arguments = Vec<(String, Argument)>;

/// Whether `arguments` are the one `name` with `value`.
pub open spec fn is_single(
    arguments: Seq<(String, Argument)>,
    name: Seq<char>,
    value: ArgumentView,
) -> bool {
    &&& arguments.len() == 1
    &&& arguments[0].0@ == name
    &&& arguments[0].1@ == value
}

/// Whether `arguments` tell the supplicant to take up the interface of `config`.
pub open spec fn is_interface_request(
    arguments: Seq<(String, Argument)>,
    config: WifiDirectConfig,
) -> bool {
    &&& arguments.len() == 2
    &&& arguments[0].0@ == "Ifname"@
    &&& arguments[0].1@ == ArgumentView::Text(config.interface@)
    &&& arguments[1].0@ == "Driver"@
    &&& arguments[1].1@ == ArgumentView::Text("nl80211"@)
}

/// How to come by the object of the interface.
#[derive(Debug)]
pub enum InterfaceStep {
    /// The supplicant has it under this path.
    Use(String),
    /// The supplicant has to take the interface up, and is told this.
    Create(Arguments),
}

/// Why the supplicant cannot be asked about a peer.
#[derive(Debug, PartialEq, Eq)]
pub enum WifiDirectError {
    /// The path of the peer is not an object path.
    InvalidObjectPath,
}

/// The path of the object of the peer with the hardware address `mac`.
pub open spec fn peer_path(iface: Seq<char>, mac: Seq<char>) -> Seq<char> {
    iface + "/Peers/"@ + mac
}

/// A Wi-Fi Direct link: the path of the interface's object, and the port that
/// datagrams go to.
#[derive(Debug)]
pub struct WifiDirectTransport {
    pub iface: String,
    pub port: u16,
}

impl WifiDirectTransport {
    /// A link over the interface with the object `iface`.
    pub fn new(config: &WifiDirectConfig, iface: String) -> (link: Self)
        ensures
            link.iface == iface,
            link.port == config.port,
    {
        WifiDirectTransport { iface, port: config.port }
    }

    /// The address and port that every datagram goes to: everyone in reach.
    pub fn destination(&self) -> (address: ([u8; 4], u16))
        ensures
            address.0@ == seq![255u8, 255, 255, 255],
            address.1 == self.port,
    {
        let everyone: [u8; 4] = [255, 255, 255, 255];
        assert(everyone@ =~= seq![255u8, 255, 255, 255]);
        (everyone, self.port)
    }

    /// What the supplicant is told to take up an interface it does not know.
    pub fn interface_arguments(config: &WifiDirectConfig) -> (arguments: Arguments)
        ensures
            is_interface_request(arguments@, *config),
    {
        let mut arguments: Arguments = Vec::new();
        arguments.push(("Ifname".to_owned(), Argument::Text(config.interface.clone())));
        arguments.push(("Driver".to_owned(), Argument::Text("nl80211".to_owned())));
        arguments
    }

    /// Decides how to come by the interface. `known` is its path, if the
    /// supplicant knows it.
    pub fn take_interface(config: &WifiDirectConfig, known: Option<String>) -> (step: InterfaceStep)
        ensures
            match known {
                Some(path) => step == InterfaceStep::Use(path),
                None => step matches InterfaceStep::Create(arguments) && is_interface_request(
                    arguments@,
                    *config,
                ),
            },
    {
        match known {
            Some(path) => InterfaceStep::Use(path),
            None => InterfaceStep::Create(Self::interface_arguments(config)),
        }
    }

    /// What the supplicant is told about this device.
    pub fn device_arguments(config: &WifiDirectConfig) -> (arguments: Arguments)
        ensures
            is_single(arguments@, "DeviceName"@, ArgumentView::Text(config.name@)),
    {
        let mut arguments: Arguments = Vec::new();
        arguments.push(("DeviceName".to_owned(), Argument::Text(config.name.clone())));
        arguments
    }

    /// The path of the object of the peer with the hardware address `mac`.
    pub fn peer_object_path(&self, mac: &str) -> (path: String)
        ensures
            path@ == peer_path(self.iface@, mac@),
    {
        let mut path = self.iface.clone();
        path.append("/Peers/");
        path.append(mac);
        path
    }

    /// What the supplicant is told to connect to `peer`.
    pub fn connect_arguments(&self, peer: &str) -> (result: Result<Arguments, WifiDirectError>)
        ensures
            match result {
                Ok(arguments) => {
                    &&& is_object_path(peer_path(self.iface@, peer@))
                    &&& arguments@.len() == 2
                    &&& arguments@[0].0@ == "peer"@
                    &&& arguments@[0].1@ == ArgumentView::Path(peer_path(self.iface@, peer@))
                    &&& arguments@[1].0@ == "wps_method"@
                    &&& arguments@[1].1@ == ArgumentView::Text("pbc"@)
                },
                Err(error) => {
                    &&& !is_object_path(peer_path(self.iface@, peer@))
                    &&& error == WifiDirectError::InvalidObjectPath
                },
            },
    {
        let path = self.peer_object_path(peer);
        if !accepts_object_path(path.as_str()) {
            return Err(WifiDirectError::InvalidObjectPath);
        }
        let mut arguments: Arguments = Vec::new();
        arguments.push(("peer".to_owned(), Argument::Path(path)));
        arguments.push(("wps_method".to_owned(), Argument::Text("pbc".to_owned())));
        Ok(arguments)
    }

    /// What the supplicant is told to let `peer` go.
    pub fn disconnect_arguments(&self, peer: &str) -> (result: Result<Arguments, WifiDirectError>)
        ensures
            match result {
                Ok(arguments) => {
                    &&& is_object_path(peer_path(self.iface@, peer@))
                    &&& is_single(
                        arguments@,
                        "peer"@,
                        ArgumentView::Path(peer_path(self.iface@, peer@)),
                    )
                },
                Err(error) => {
                    &&& !is_object_path(peer_path(self.iface@, peer@))
                    &&& error == WifiDirectError::InvalidObjectPath
                },
            },
    {
        let path = self.peer_object_path(peer);
        if !accepts_object_path(path.as_str()) {
            return Err(WifiDirectError::InvalidObjectPath);
        }
        let mut arguments: Arguments = Vec::new();
        arguments.push(("peer".to_owned(), Argument::Path(path)));
        Ok(arguments)
    }
}

/// The path of a peer's object ends in the peer's hardware address: a device
/// found under the path is the peer.
pub proof fn law_path_names_peer(iface: Seq<char>, mac: Seq<char>)
    requires
        !mac.contains('/'),
    ensures
        last_segment(peer_path(iface, mac)) == mac,
    decreases mac.len(),
{
    reveal_strlit("/Peers/");
    let path = peer_path(iface, mac);
    if mac.len() > 0 {
        let head = mac.drop_last();
        assert(!head.contains('/')) by {
            if head.contains('/') {
                let i = choose|i: int| 0 <= i < head.len() && head[i] == '/';
                assert(mac[i] == '/');
            }
        }
        law_path_names_peer(iface, head);
        assert(path.drop_last() =~= peer_path(iface, head));
        assert(path.last() == mac.last());
        assert(mac.contains(mac.last()));
        assert(head.push(mac.last()) =~= mac);
    } else {
        assert(path.last() == '/');
        assert(mac =~= seq![]);
    }
}

/// Every peer whose hardware address is written in letters and digits can be
/// asked about, over any interface but the root object.
pub proof fn law_peer_path_is_object_path(iface: Seq<char>, mac: Seq<char>)
    requires
        is_object_path(iface),
        iface.len() > 1,
        mac.len() > 0,
        forall|i: int| 0 <= i < mac.len() ==> is_name_char(#[trigger] mac[i]),
    ensures
        is_object_path(peer_path(iface, mac)),
{
    reveal_strlit("/Peers/");
    let path = peer_path(iface, mac);
    let n = iface.len() as int;
    assert(path[0] == iface[0]);
    assert(path.last() == mac[mac.len() - 1]);
    assert forall|i: int| 0 <= i < path.len() implies is_name_char(#[trigger] path[i]) || path[i]
        == '/' by {
        if i < n {
            assert(path[i] == iface[i]);
        } else if i >= n + 7 {
            assert(path[i] == mac[i - n - 7]);
        }
    }
    assert forall|i: int| 0 < i < path.len() && #[trigger] path[i] == '/' implies path[i - 1]
        != '/' by {
        if i < n {
            assert(path[i] == iface[i] && path[i - 1] == iface[i - 1]);
        } else if i == n {
            assert(path[i - 1] == iface.last());
        } else if i >= n + 7 {
            assert(path[i] == mac[i - n - 7]);
        }
    }
}

/// An entry that has not been resolved never names a peer.
pub proof fn law_unresolved_names_no_peer(rows: Seq<Seq<char>>, ip: Seq<char>)
    ensures
        first_mac(rows, ip) != Some(UNRESOLVED_MAC@),
    decreases rows.len(),
{
    if rows.len() > 0 {
        law_unresolved_names_no_peer(rows.drop_first(), ip);
    }
}

proof fn lemma_decimal_digits(number: nat)
    ensures
        decimal(number).len() > 0,
        forall|i: int|
            0 <= i < decimal(number).len() ==> '0' <= #[trigger] decimal(number)[i] <= '9',
    decreases number,
{
    if number >= 10 {
        lemma_decimal_digits(number / 10);
    }
}

proof fn lemma_decimal_injective(a: nat, b: nat)
    requires
        decimal(a) == decimal(b),
    ensures
        a == b,
    decreases a,
{
    let da = decimal(a);
    let db = decimal(b);
    lemma_decimal_digits(a);
    lemma_decimal_digits(b);
    lemma_decimal_digits(a / 10);
    lemma_decimal_digits(b / 10);
    assert(da.last() == (('0' as u8) + a % 10) as char);
    assert(db.last() == (('0' as u8) + b % 10) as char);
    assert(a % 10 == b % 10);
    if a >= 10 && b >= 10 {
        assert(da.drop_last() =~= decimal(a / 10));
        assert(db.drop_last() =~= decimal(b / 10));
        lemma_decimal_injective(a / 10, b / 10);
    }
}

/// Two texts that agree agree in what stands before their first dots, and in
/// what stands after them.
proof fn lemma_split_at_dot(a: Seq<char>, ra: Seq<char>, b: Seq<char>, rb: Seq<char>)
    requires
        a + seq!['.'] + ra == b + seq!['.'] + rb,
        forall|i: int| 0 <= i < a.len() ==> #[trigger] a[i] != '.',
        forall|i: int| 0 <= i < b.len() ==> #[trigger] b[i] != '.',
    ensures
        a == b,
        ra == rb,
{
    let left = a + seq!['.'] + ra;
    let right = b + seq!['.'] + rb;
    assert(left[a.len() as int] == '.');
    assert(right[b.len() as int] == '.');
    if a.len() < b.len() {
        assert(right[a.len() as int] == b[a.len() as int]);
    }
    if b.len() < a.len() {
        assert(left[b.len() as int] == a[b.len() as int]);
    }
    assert(a =~= left.take(a.len() as int));
    assert(b =~= right.take(b.len() as int));
    assert(ra =~= left.skip(a.len() as int + 1));
    assert(rb =~= right.skip(b.len() as int + 1));
}

/// The dotted form tells addresses apart, so that looking a text up is looking
/// an address up.
pub proof fn law_dotted_is_unambiguous(a: Seq<u8>, b: Seq<u8>)
    requires
        a.len() == 4,
        b.len() == 4,
        dotted(a) == dotted(b),
    ensures
        a == b,
{
    let dot = seq!['.'];
    let a3 = decimal(a[3] as nat);
    let b3 = decimal(b[3] as nat);
    let a2 = decimal(a[2] as nat) + dot + a3;
    let b2 = decimal(b[2] as nat) + dot + b3;
    let a1 = decimal(a[1] as nat) + dot + a2;
    let b1 = decimal(b[1] as nat) + dot + b2;
    assert(dotted(a) =~= decimal(a[0] as nat) + dot + a1);
    assert(dotted(b) =~= decimal(b[0] as nat) + dot + b1);
    lemma_decimal_digits(a[0] as nat);
    lemma_decimal_digits(a[1] as nat);
    lemma_decimal_digits(a[2] as nat);
    lemma_decimal_digits(b[0] as nat);
    lemma_decimal_digits(b[1] as nat);
    lemma_decimal_digits(b[2] as nat);
    lemma_split_at_dot(decimal(a[0] as nat), a1, decimal(b[0] as nat), b1);
    lemma_split_at_dot(decimal(a[1] as nat), a2, decimal(b[1] as nat), b2);
    lemma_split_at_dot(decimal(a[2] as nat), a3, decimal(b[2] as nat), b3);
    lemma_decimal_injective(a[0] as nat, b[0] as nat);
    lemma_decimal_injective(a[1] as nat, b[1] as nat);
    lemma_decimal_injective(a[2] as nat, b[2] as nat);
    lemma_decimal_injective(a[3] as nat, b[3] as nat);
    assert(a =~= b);
}

/// The dotted form is the four numbers as numerals, in order, with a dot
/// between each two.
pub proof fn law_dotted_is_four_numerals(
    ip: Seq<u8>,
    first: Seq<char>,
    second: Seq<char>,
    third: Seq<char>,
    fourth: Seq<char>,
)
    requires
        ip.len() == 4,
        is_numeral(first, ip[0] as nat),
        is_numeral(second, ip[1] as nat),
        is_numeral(third, ip[2] as nat),
        is_numeral(fourth, ip[3] as nat),
    ensures
        dotted(ip) == first + seq!['.'] + second + seq!['.'] + third + seq!['.'] + fourth,
{
    law_decimal_is_the_numeral(first, ip[0] as nat);
    law_decimal_is_the_numeral(second, ip[1] as nat);
    law_decimal_is_the_numeral(third, ip[2] as nat);
    law_decimal_is_the_numeral(fourth, ip[3] as nat);
}

/// A row whose first column is the dotted form of one address gives nothing for
/// any other address.
pub proof fn law_rows_of_others_give_nothing(row: Seq<char>, own: Seq<u8>, other: Seq<u8>)
    requires
        own.len() == 4,
        other.len() == 4,
        own != other,
        words(row).len() > 0,
        words(row)[0] == dotted(other),
    ensures
        row_mac(row, dotted(own)) is None,
{
    if dotted(own) == dotted(other) {
        law_dotted_is_unambiguous(own, other);
    }
}

/// A row of columns parted by white space gives its fourth column for the
/// address in its first, unless that is the unresolved one, and nothing for any
/// other text. What is in the second and third column, and what follows, does
/// not matter.
pub proof fn law_row_gives_its_fourth_column(
    first: Seq<char>,
    second: Seq<char>,
    third: Seq<char>,
    fourth: Seq<char>,
    space: char,
    more: Seq<char>,
    ip: Seq<char>,
)
    requires
        first.len() > 0 && is_solid(first),
        second.len() > 0 && is_solid(second),
        third.len() > 0 && is_solid(third),
        fourth.len() > 0 && is_solid(fourth),
        is_space(space),
    ensures
        ({
            let gap = seq![space];
            let row = first + gap + (second + gap + (third + gap + (fourth + gap + more)));
            &&& row_mac(row, ip) is Some <==> first == ip && fourth != "00:00:00:00:00:00"@
            &&& row_mac(row, ip) is Some ==> row_mac(row, ip)->0 == fourth
        }),
{
    let gap = seq![space];
    let row3 = fourth + gap + more;
    let row2 = third + gap + row3;
    let row1 = second + gap + row2;
    let row0 = first + gap + row1;
    law_white_space_parts_words(first, space, row1);
    law_white_space_parts_words(second, space, row2);
    law_white_space_parts_words(third, space, row3);
    law_white_space_parts_words(fourth, space, more);
    law_solid_text_is_one_word(first);
    law_solid_text_is_one_word(second);
    law_solid_text_is_one_word(third);
    law_solid_text_is_one_word(fourth);
    let columns = words(row0);
    assert(columns =~= seq![first, second, third, fourth] + words(more));
    assert(columns[0] == first && columns[3] == fourth);
}

/// A row gives a hardware address only if it has four columns, and then its
/// fourth.
pub proof fn law_short_rows_give_nothing(row: Seq<char>, ip: Seq<char>)
    ensures
        words(row).len() < 4 ==> row_mac(row, ip) is None,
        row_mac(row, ip) matches Some(mac) ==> {
            &&& words(row)[0] == ip
            &&& words(row)[3] == mac
            &&& mac != "00:00:00:00:00:00"@
        },
{
}

/// What the rows give is what the first one that gives anything does.
pub proof fn law_first_row_that_gives(rows: Seq<Seq<char>>, ip: Seq<char>)
    ensures
        first_mac(rows, ip) is None <==> forall|i: int|
            0 <= i < rows.len() ==> row_mac(#[trigger] rows[i], ip) is None,
        first_mac(rows, ip) is Some ==> exists|i: int|
            {
                &&& 0 <= i < rows.len()
                &&& row_mac(#[trigger] rows[i], ip) == first_mac(rows, ip)
                &&& forall|j: int| 0 <= j < i ==> row_mac(#[trigger] rows[j], ip) is None
            },
    decreases rows.len(),
{
    if rows.len() > 0 {
        let rest = rows.drop_first();
        law_first_row_that_gives(rest, ip);
        if row_mac(rows[0], ip) is None {
            assert forall|i: int| 0 < i < rows.len() implies #[trigger] rows[i] == rest[i - 1] by {
            }
            if first_mac(rest, ip) is Some {
                let i = choose|i: int|
                    {
                        &&& 0 <= i < rest.len()
                        &&& row_mac(#[trigger] rest[i], ip) == first_mac(rest, ip)
                        &&& forall|j: int|
                            0 <= j < i ==> row_mac(#[trigger] rest[j], ip) is None
                    };
                assert(rows[i + 1] == rest[i]);
                assert forall|j: int| 0 <= j < i + 1 implies row_mac(#[trigger] rows[j], ip)
                    is None by {
                    if j > 0 {
                        assert(rows[j] == rest[j - 1]);
                    }
                }
            } else {
                assert forall|i: int| 0 <= i < rows.len() implies row_mac(#[trigger] rows[i], ip)
                    is None by {
                    if i > 0 {
                        assert(rows[i] == rest[i - 1]);
                    }
                }
            }
        } else {
            assert(row_mac(rows[0], ip) == first_mac(rows, ip));
        }
    }
}

/// The first line of a table is a heading and gives nothing, whatever it reads.
pub proof fn law_heading_gives_nothing(heading: Seq<char>, ip: Seq<char>)
    requires
        is_one_line(heading),
    ensures
        table_mac(heading, ip) is None,
        table_mac(heading + seq!['\n'], ip) is None,
{
    law_last_line(heading);
    law_line_feed_parts_lines(heading, Seq::empty());
    law_last_line(Seq::empty());
    assert(heading + seq!['\n'] + Seq::<char>::empty() =~= heading + seq!['\n']);
    if lines(heading).len() > 0 {
        assert(table_rows(heading) =~= seq![]);
    }
    assert(table_rows(heading + seq!['\n']) =~= seq![]);
}

/// A table gives what its first row gives; a row that gives nothing could as
/// well not stand there.
pub proof fn law_table_is_read_row_by_row(
    heading: Seq<char>,
    row: Seq<char>,
    rest: Seq<char>,
    ip: Seq<char>,
)
    requires
        is_one_line(heading),
        is_one_line(row),
    ensures
        table_mac(heading + seq!['\n'] + (row + seq!['\n'] + rest), ip) == (if row_mac(row, ip)
            is Some {
            row_mac(row, ip)
        } else {
            table_mac(heading + seq!['\n'] + rest, ip)
        }),
{
    let feed = seq!['\n'];
    let body = row + feed + rest;
    law_line_feed_parts_lines(heading, body);
    law_line_feed_parts_lines(heading, rest);
    law_line_feed_parts_lines(row, rest);
    assert(table_rows(heading + feed + body) =~= lines(body));
    assert(table_rows(heading + feed + rest) =~= lines(rest));
    assert(lines(body)[0] == row);
    assert(lines(body).drop_first() =~= lines(rest));
}

/// A row that ends the table without a line feed is read like any other.
pub proof fn law_last_row_is_read(heading: Seq<char>, row: Seq<char>, ip: Seq<char>)
    requires
        is_one_line(heading),
        is_one_line(row),
        row.len() > 0,
    ensures
        table_mac(heading + seq!['\n'] + row, ip) == row_mac(row, ip),
{
    law_line_feed_parts_lines(heading, row);
    law_last_line(row);
    let rows = table_rows(heading + seq!['\n'] + row);
    assert(rows =~= seq![row]);
    assert(rows.drop_first() =~= seq![]);
    assert(first_mac(rows.drop_first(), ip) is None);
}

/// A peer is named by the hardware address that the table gives for its own
/// address, and by the address itself where the table gives none or could not
/// be read. An address of the longer kind is left as it is.
pub proof fn law_whom_a_datagram_is_from(source: Source, table: Option<Seq<char>>)
    ensures
        source matches Source::V6(text) ==> peer_of(source, table) == text@,
        source matches Source::V4(ip) ==> {
            &&& table is None ==> peer_of(source, table) == dotted(ip@)
            &&& table matches Some(text) ==> {
                ||| table_mac(text, dotted(ip@)) == Some(peer_of(source, table))
                ||| table_mac(text, dotted(ip@)) is None && peer_of(source, table) == dotted(ip@)
            }
        },
{
}

/// The name of a device is what stands after the last slash of its path,
/// whatever stands before it.
pub proof fn law_last_segment(head: Seq<char>, name: Seq<char>)
    requires
        !name.contains('/'),
    ensures
        last_segment(name) == name,
        last_segment(head + seq!['/'] + name) == name,
    decreases name.len(),
{
    let path = head + seq!['/'] + name;
    if name.len() == 0 {
        assert(path.last() == '/');
        assert(name =~= seq![]);
    } else {
        let start = name.drop_last();
        assert(!start.contains('/')) by {
            if start.contains('/') {
                let i = choose|i: int| 0 <= i < start.len() && start[i] == '/';
                assert(name[i] == '/');
            }
        }
        law_last_segment(head, start);
        assert(path.drop_last() =~= head + seq!['/'] + start);
        assert(name.contains(name.last()));
        assert(start.push(name.last()) =~= name);
    }
}

/// The path of a peer's object is the whole path of the interface's object,
/// then the element for peers, then the whole hardware address.
pub proof fn law_peer_path_holds_everything(iface: Seq<char>, mac: Seq<char>)
    ensures
        peer_path(iface, mac).len() == iface.len() + mac.len() + 7,
        peer_path(iface, mac).take(iface.len() as int) == iface,
        peer_path(iface, mac).subrange(iface.len() as int, iface.len() as int + 7) == "/Peers/"@,
        peer_path(iface, mac).skip(iface.len() as int + 7) == mac,
{
    reveal_strlit("/Peers/");
    let path = peer_path(iface, mac);
    assert(path.take(iface.len() as int) =~= iface);
    assert(path.subrange(iface.len() as int, iface.len() as int + 7) =~= "/Peers/"@);
    assert(path.skip(iface.len() as int + 7) =~= mac);
}

/// An object path other than the root stays one exactly when what is added to
/// it after a slash is an element: at least one character, all of them ASCII
/// letters, digits and underscores.
pub proof fn law_object_path_grows_by_elements(path: Seq<char>, element: Seq<char>)
    requires
        is_object_path(path),
        path.len() > 1,
        !element.contains('/'),
    ensures
        is_object_path(path + seq!['/'] + element) <==> {
            &&& element.len() > 0
            &&& forall|i: int|
                0 <= i < element.len() ==> {
                    let c = #[trigger] element[i];
                    'a' <= c <= 'z' || 'A' <= c <= 'Z' || '0' <= c <= '9' || c == '_'
                }
        },
{
    let grown = path + seq!['/'] + element;
    let n = path.len() as int;
    assert(grown[n] == '/');
    assert(grown[0] == path[0]);
    if is_object_path(grown) {
        if element.len() == 0 {
            assert(grown.last() == '/');
        }
        assert forall|i: int| 0 <= i < element.len() implies is_name_char(
            #[trigger] element[i],
        ) by {
            assert(grown[n + 1 + i] == element[i]);
            assert(element.contains(element[i]));
        }
    }
    if element.len() > 0 && forall|i: int|
        0 <= i < element.len() ==> is_name_char(#[trigger] element[i]) {
        assert(grown.last() == element[element.len() - 1]);
        assert forall|i: int| 0 <= i < grown.len() implies is_name_char(#[trigger] grown[i])
            || grown[i] == '/' by {
            if i < n {
                assert(grown[i] == path[i]);
            } else if i > n {
                assert(grown[i] == element[i - n - 1]);
            }
        }
        assert forall|i: int| 0 < i < grown.len() && #[trigger] grown[i] == '/' implies grown[i
            - 1] != '/' by {
            if i < n {
                assert(grown[i] == path[i] && grown[i - 1] == path[i - 1]);
            } else if i == n {
                assert(grown[i - 1] == path.last());
            } else {
                assert(grown[i] == element[i - n - 1]);
            }
        }
    }
}

/// The value of an argument leaves nothing out and adds nothing.
pub proof fn law_argument_is_its_parts(argument: Argument)
    ensures
        argument matches Argument::Text(text) ==> argument@ == ArgumentView::Text(text@),
        argument matches Argument::Path(path) ==> argument@ == ArgumentView::Path(path@),
{
}

/// An interface is taken up under its whole name, and with the one driver.
pub proof fn law_interface_request(arguments: Seq<(String, Argument)>, config: WifiDirectConfig)
    requires
        is_interface_request(arguments, config),
    ensures
        arguments.len() == 2,
        arguments[0].0@ == "Ifname"@,
        arguments[0].1@ == ArgumentView::Text(config.interface@),
        arguments[1].0@ == "Driver"@,
        arguments[1].1@ == ArgumentView::Text("nl80211"@),
{
}

/// A single argument is there under its whole name and with its whole value.
pub proof fn law_single_argument(
    arguments: Seq<(String, Argument)>,
    name: Seq<char>,
    value: ArgumentView,
)
    requires
        is_single(arguments, name, value),
    ensures
        arguments.len() == 1,
        arguments[0].0@ == name,
        arguments[0].1@ == value,
{
}

/// The root is an object path, and so is a slash with one element after it.
/// Every other object path is an object path other than the root with a slash
/// and more after it, and every one begins with a slash.
pub proof fn law_object_paths_begin_at_the_root(path: Seq<char>, element: Seq<char>)
    requires
        !element.contains('/'),
    ensures
        is_object_path(seq!['/']),
        element.len() > 0 ==> (is_object_path(seq!['/'] + element) <==> forall|i: int|
            0 <= i < element.len() ==> {
                let c = #[trigger] element[i];
                'a' <= c <= 'z' || 'A' <= c <= 'Z' || '0' <= c <= '9' || c == '_'
            }),
        is_object_path(path + seq!['/'] + element) && path.len() > 0 ==> {
            &&& is_object_path(path)
            &&& path.len() > 1
        },
        path.len() == 0 || path[0] != '/' ==> !is_object_path(path),
{
    let single = seq!['/'] + element;
    if element.len() > 0 {
        if is_object_path(single) {
            assert forall|i: int| 0 <= i < element.len() implies is_name_char(
                #[trigger] element[i],
            ) by {
                assert(single[1 + i] == element[i]);
                assert(element.contains(element[i]));
            }
        }
        if forall|i: int| 0 <= i < element.len() ==> is_name_char(#[trigger] element[i]) {
            assert(single.last() == element[element.len() - 1]);
            assert forall|i: int| 0 <= i < single.len() implies is_name_char(#[trigger] single[i])
                || single[i] == '/' by {
                if i > 0 {
                    assert(single[i] == element[i - 1]);
                }
            }
            assert forall|i: int| 0 < i < single.len() && #[trigger] single[i] == '/' implies
                single[i - 1] != '/' by {
                assert(single[i] == element[i - 1]);
            }
        }
    }
    let grown = path + seq!['/'] + element;
    if is_object_path(grown) && path.len() > 0 {
        let n = path.len() as int;
        assert(grown[n] == '/');
        assert(grown[n - 1] == path[n - 1]);
        assert(grown[0] == path[0]);
        assert forall|i: int| 0 <= i < path.len() implies is_name_char(#[trigger] path[i])
            || path[i] == '/' by {
            assert(path[i] == grown[i]);
        }
        assert forall|i: int| 0 < i < path.len() && #[trigger] path[i] == '/' implies path[i - 1]
            != '/' by {
            assert(path[i] == grown[i] && path[i - 1] == grown[i - 1]);
        }
    }
}

} // verus!
