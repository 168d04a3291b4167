//! Text of protocols, addresses and peers: `protocol@address`, with an IPv4
//! address in dotted decimal. IPv6 text is read in every form of the usual
//! grammar (`::` for a run of zero groups, an embedded IPv4 address at the
//! end) and written as the usual display writes it (`::` for the first
//! longest run of zero groups, `::ffff:` and dotted decimal for a mapped IPv4
//! address).
use crate::error::RouteWeaverError;
use crate::proto::{
    address_wf, hex_digit, hex_value, is_hex_char, Address, AddressModel, IpAddress, Peer,
    PeerModel, Protocol,
};
use vstd::prelude::*;
use vstd::string::StrSliceExecFns;

verus! {

pub open spec fn protocol_text(p: Protocol) -> Seq<char> {
    match p {
        Protocol::Tcp => seq!['t', 'c', 'p'],
        Protocol::Unix => seq!['u', 'n', 'i', 'x'],
        Protocol::Http => seq!['h', 't', 't', 'p'],
        Protocol::Bluetooth => seq!['b', 'l', 'u', 'e', 't', 'o', 'o', 't', 'h'],
    }
}

/// Decimal digits of a number, without leading zeros.
pub open spec fn dec_text(v: nat) -> Seq<char>
    decreases v,
{
    if v < 10 {
        seq![hex_digit(v as int)]
    } else {
        dec_text(v / 10).push(hex_digit((v % 10) as int))
    }
}

/// Lowercase hexadecimal digits of a number, without leading zeros.
pub open spec fn group_text(v: nat) -> Seq<char>
    decreases v,
{
    if v < 16 {
        seq![hex_digit(v as int)]
    } else {
        group_text(v / 16).push(hex_digit((v % 16) as int))
    }
}

/// Parts joined by a separator.
pub open spec fn join_with(parts: Seq<Seq<char>>, c: char) -> Seq<char>
    decreases parts.len(),
{
    if parts.len() == 0 {
        Seq::empty()
    } else if parts.len() == 1 {
        parts[0]
    } else {
        join_with(parts.drop_last(), c).push(c) + parts.last()
    }
}

pub open spec fn ipv4_text(a: Seq<u8>) -> Seq<char> {
    join_with(Seq::new(4, |i: int| dec_text(a[i] as nat)), '.')
}

/// The eight 16-bit groups of an IPv6 address.
pub open spec fn v6_groups_of_bytes(a: Seq<u8>) -> Seq<int> {
    Seq::new(8, |i: int| a[2 * i] as int * 256 + a[2 * i + 1] as int)
}

/// The hexadecimal text of each group.
pub open spec fn hex_parts(g: Seq<int>) -> Seq<Seq<char>> {
    Seq::new(g.len(), |i: int| group_text(g[i] as nat))
}

/// After the first `i` groups: the start and length of the first longest run
/// of zero groups, and of the run that ends here.
pub open spec fn zero_scan(g: Seq<int>, i: int) -> (int, int, int, int)
    decreases i,
{
    if i <= 0 {
        (0, 0, 0, 0)
    } else {
        let z = zero_scan(g, i - 1);
        if g[i - 1] == 0 {
            let cs = if z.3 == 0 {
                i - 1
            } else {
                z.2
            };
            if z.3 + 1 > z.1 {
                (cs, z.3 + 1, cs, z.3 + 1)
            } else {
                (z.0, z.1, cs, z.3 + 1)
            }
        } else {
            (z.0, z.1, 0, 0)
        }
    }
}

/// An IPv4 address mapped into IPv6: ten zero bytes, then two bytes of 255.
pub open spec fn is_v4_mapped(a: Seq<u8>) -> bool {
    &&& forall|k: int| 0 <= k < 10 ==> a[k] == 0
    &&& a[10] == 255
    &&& a[11] == 255
}

/// IPv6 text as the usual display writes it: `::ffff:` and dotted decimal
/// for a mapped IPv4 address; otherwise lowercase hexadecimal groups, with
/// the first longest run of two or more zero groups written as `::`.
pub open spec fn ipv6_text(a: Seq<u8>) -> Seq<char> {
    if is_v4_mapped(a) {
        seq![':', ':', 'f', 'f', 'f', 'f', ':'] + ipv4_text(a.subrange(12, 16))
    } else {
        let g = v6_groups_of_bytes(a);
        let z = zero_scan(g, 8);
        if z.1 > 1 {
            join_with(hex_parts(g.subrange(0, z.0)), ':') + seq![':', ':'] + join_with(
                hex_parts(g.subrange(z.0 + z.1, 8)),
                ':',
            )
        } else {
            join_with(hex_parts(g), ':')
        }
    }
}

pub open spec fn address_text(a: AddressModel) -> Seq<char> {
    match a {
        AddressModel::V4(b) => ipv4_text(b),
        AddressModel::V6(b) => ipv6_text(b),
    }
}

/// The text of a peer: its protocol, `@`, its address.
pub open spec fn peer_text(p: PeerModel) -> Seq<char> {
    protocol_text(p.protocol).push('@') + address_text(p.address)
}

/// The pieces of a text between occurrences of a separator.
pub open spec fn split_on(t: Seq<char>, c: char) -> Seq<Seq<char>>
    decreases t.len(),
{
    if t.len() == 0 {
        seq![Seq::empty()]
    } else {
        let r = split_on(t.drop_last(), c);
        if t.last() == c {
            r.push(Seq::empty())
        } else {
            r.update(r.len() - 1, r.last().push(t.last()))
        }
    }
}

pub open spec fn lower(c: char) -> char {
    if 'A' <= c && c <= 'Z' {
        ((c as int + 32) as u8) as char
    } else {
        c
    }
}

pub open spec fn lower_text(t: Seq<char>) -> Seq<char> {
    t.map_values(|c: char| lower(c))
}

/// The protocol whose name is the text, in any letter case.
pub open spec fn parse_protocol(t: Seq<char>) -> Option<Protocol> {
    let l = lower_text(t);
    if l == protocol_text(Protocol::Tcp) {
        Some(Protocol::Tcp)
    } else if l == protocol_text(Protocol::Unix) {
        Some(Protocol::Unix)
    } else if l == protocol_text(Protocol::Http) {
        Some(Protocol::Http)
    } else if l == protocol_text(Protocol::Bluetooth) {
        Some(Protocol::Bluetooth)
    } else {
        None
    }
}

pub open spec fn is_digit(c: char) -> bool {
    '0' <= c && c <= '9'
}

pub open spec fn digits_value(t: Seq<char>, base: int) -> int
    decreases t.len(),
{
    if t.len() == 0 {
        0
    } else {
        digits_value(t.drop_last(), base) * base + hex_value(t.last())
    }
}

/// A dotted-decimal field: one to three digits, no leading zero, at most 255.
pub open spec fn is_dec_field(t: Seq<char>) -> bool {
    &&& 1 <= t.len() <= 3
    &&& forall|i: int| 0 <= i < t.len() ==> is_digit(#[trigger] t[i])
    &&& (t.len() == 1 || t[0] != '0')
    &&& digits_value(t, 10) <= 255
}

/// A group of an IPv6 address: one to four hexadecimal digits of any case.
pub open spec fn is_hex_field(t: Seq<char>) -> bool {
    &&& 1 <= t.len() <= 4
    &&& forall|i: int| 0 <= i < t.len() ==> is_hex_char(#[trigger] t[i])
}

/// Dotted-decimal IPv4 text: four decimal fields separated by `.`.
pub open spec fn is_v4_text(t: Seq<char>) -> bool {
    let f = split_on(t, '.');
    f.len() == 4 && forall|i: int| 0 <= i < 4 ==> is_dec_field(#[trigger] f[i])
}

/// The bytes of dotted-decimal IPv4 text.
pub open spec fn v4_bytes(t: Seq<char>) -> Seq<u8> {
    Seq::new(4, |k: int| digits_value(split_on(t, '.')[k], 10) as u8)
}

/// The 16-bit groups that the pieces of IPv6 text stand for: a hexadecimal
/// group is one, an embedded IPv4 address is two.
pub open spec fn groups_of(p: Seq<Seq<char>>) -> Seq<int>
    decreases p.len(),
{
    if p.len() == 0 {
        Seq::empty()
    } else {
        let q = p.last();
        groups_of(p.drop_last()) + if is_hex_field(q) {
            seq![digits_value(q, 16)]
        } else {
            let b = v4_bytes(q);
            seq![b[0] as int * 256 + b[1] as int, b[2] as int * 256 + b[3] as int]
        }
    }
}

/// Pieces of IPv6 text that are all hexadecimal groups, but for the last,
/// which may be an embedded IPv4 address where `v4_last` allows it.
pub open spec fn pieces_ok(p: Seq<Seq<char>>, v4_last: bool) -> bool {
    &&& forall|i: int| 0 <= i < p.len() - 1 ==> is_hex_field(#[trigger] p[i])
    &&& p.len() >= 1 ==> (is_hex_field(p.last()) || (v4_last && is_v4_text(p.last())))
}

/// The `:`-separated pieces of a text; none for the empty text.
pub open spec fn colon_pieces(t: Seq<char>) -> Seq<Seq<char>> {
    if t.len() == 0 {
        Seq::empty()
    } else {
        split_on(t, ':')
    }
}

/// The position of the first `::` at or after `i`, or -1.
pub open spec fn double_colon_from(t: Seq<char>, i: int) -> int
    decreases t.len() - i,
{
    if i < 0 || i + 1 >= t.len() {
        -1
    } else if t[i] == ':' && t[i + 1] == ':' {
        i
    } else {
        double_colon_from(t, i + 1)
    }
}

/// The eight groups of IPv6 text: either eight groups in full (the last two
/// may be an embedded IPv4 address), or groups before and after one `::`
/// that stands for at least one zero group, with an embedded IPv4 address
/// allowed only at the very end.
pub open spec fn parse_v6_groups(t: Seq<char>) -> Option<Seq<int>> {
    let p = split_on(t, ':');
    let k = double_colon_from(t, 0);
    if k >= 0 {
        let hp = colon_pieces(t.subrange(0, k));
        let tp = colon_pieces(t.subrange(k + 2, t.len() as int));
        let n = groups_of(hp).len() + groups_of(tp).len();
        if pieces_ok(hp, false) && pieces_ok(tp, true) && n <= 7 {
            Some(groups_of(hp) + Seq::new((8 - n) as nat, |i: int| 0int) + groups_of(tp))
        } else {
            None
        }
    } else if pieces_ok(p, true) && groups_of(p).len() == 8 {
        Some(groups_of(p))
    } else {
        None
    }
}

/// The sixteen bytes of eight 16-bit groups, high byte first.
pub open spec fn v6_bytes(g: Seq<int>) -> Seq<u8> {
    Seq::new(16, |k: int| if k % 2 == 0 { (g[k / 2] / 256) as u8 } else { (g[k / 2] % 256) as u8 })
}

/// The address a text stands for: dotted-decimal IPv4, or IPv6 text.
pub open spec fn parse_address(t: Seq<char>) -> Option<AddressModel> {
    if is_v4_text(t) {
        Some(AddressModel::V4(v4_bytes(t)))
    } else {
        match parse_v6_groups(t) {
            Some(g) => Some(AddressModel::V6(v6_bytes(g))),
            None => None,
        }
    }
}

/// The peer a text stands for: exactly one `@`, a protocol name before it and
/// an address after it.
pub open spec fn parse_peer(s: Seq<char>) -> Option<PeerModel> {
    let parts = split_on(s, '@');
    if parts.len() != 2 {
        None
    } else {
        match (parse_protocol(parts[0]), parse_address(parts[1])) {
            (Some(p), Some(a)) => Some(PeerModel { protocol: p, address: a }),
            _ => None,
        }
    }
}

} // verus!

verus! {

/// A separator that a text does not hold leaves it whole, appended to the
/// last piece.
pub proof fn lemma_split_append(x: Seq<char>, w: Seq<char>, c: char)
    requires
        forall|i: int| 0 <= i < w.len() ==> w[i] != c,
    ensures
        split_on(x + w, c) == split_on(x, c).update(
            split_on(x, c).len() - 1,
            split_on(x, c).last() + w,
        ),
        split_on(x, c).len() >= 1,
    decreases w.len(),
{
    lemma_split_len(x, c);
    if w.len() == 0 {
        assert(x + w =~= x);
        assert(split_on(x, c).last() + w =~= split_on(x, c).last());
        assert(split_on(x, c).update(split_on(x, c).len() - 1, split_on(x, c).last())
            =~= split_on(x, c));
    } else {
        let w0 = w.drop_last();
        lemma_split_append(x, w0, c);
        assert((x + w).drop_last() =~= x + w0);
        assert((x + w).last() == w.last());
        let r = split_on(x, c);
        assert((r.last() + w0).push(w.last()) =~= r.last() + w);
        assert(r.update(r.len() - 1, r.last() + w0).update(r.len() - 1, r.last() + w) =~= r.update(
            r.len() - 1,
            r.last() + w,
        ));
    }
}

pub proof fn lemma_split_len(x: Seq<char>, c: char)
    ensures
        split_on(x, c).len() >= 1,
    decreases x.len(),
{
    if x.len() > 0 {
        lemma_split_len(x.drop_last(), c);
    }
}

/// Splitting parts joined by a separator that none of them holds gives the
/// parts back.
pub proof fn lemma_split_join(parts: Seq<Seq<char>>, c: char)
    requires
        parts.len() >= 1,
        forall|k: int, i: int| 0 <= k < parts.len() && 0 <= i < parts[k].len() ==> #[trigger] parts[k][i] != c,
    ensures
        split_on(join_with(parts, c), c) == parts,
    decreases parts.len(),
{
    let last = parts.last();
    assert forall|i: int| 0 <= i < last.len() implies last[i] != c by {
        assert(parts[parts.len() - 1][i] != c);
    }
    if parts.len() == 1 {
        lemma_split_append(Seq::empty(), last, c);
        assert(Seq::<char>::empty() + last =~= last);
        assert(split_on(Seq::<char>::empty(), c).update(0, Seq::<char>::empty() + last) =~= parts);
    } else {
        let front = parts.drop_last();
        lemma_split_join(front, c);
        let j0 = join_with(front, c).push(c);
        lemma_split_append(j0, last, c);
        assert(j0.drop_last() =~= join_with(front, c));
        assert(split_on(j0, c) == front.push(Seq::empty()));
        assert(Seq::<char>::empty() + last =~= last);
        assert(front.push(Seq::empty()).update(front.len() as int, last) =~= parts);
    }
}

/// What a joined text holds: separators and the parts' characters.
pub proof fn lemma_join_chars(parts: Seq<Seq<char>>, c: char, d: char)
    requires
        d != c,
        forall|k: int, i: int| 0 <= k < parts.len() && 0 <= i < parts[k].len() ==> #[trigger] parts[k][i] != d,
    ensures
        forall|i: int| 0 <= i < join_with(parts, c).len() ==> #[trigger] join_with(parts, c)[i] != d,
    decreases parts.len(),
{
    if parts.len() >= 2 {
        let front = parts.drop_last();
        lemma_join_chars(front, c, d);
        let j = join_with(parts, c);
        let j0 = join_with(front, c);
        assert forall|i: int| 0 <= i < j.len() implies #[trigger] j[i] != d by {
            if i < j0.len() {
                assert(j[i] == j0[i]);
            } else if i > j0.len() {
                assert(j[i] == parts.last()[i - j0.len() - 1]);
                assert(parts[parts.len() - 1][i - j0.len() - 1] != d);
            }
        }
    } else if parts.len() == 1 {
        assert forall|i: int| 0 <= i < join_with(parts, c).len() implies #[trigger] join_with(
            parts,
            c,
        )[i] != d by {
            assert(parts[0][i] != d);
        }
    }
}

pub proof fn lemma_dec_text(v: nat)
    requires
        v <= 255,
    ensures
        is_dec_field(dec_text(v)),
        digits_value(dec_text(v), 10) == v,
{
    reveal_with_fuel(dec_text, 3);
    reveal_with_fuel(digits_value, 4);
    let t = dec_text(v);
    if v < 10 {
    } else if v < 100 {
        assert(v / 10 < 10);
        assert(t =~= seq![hex_digit((v / 10) as int), hex_digit((v % 10) as int)]);
    } else {
        assert(v / 10 >= 10 && v / 10 / 10 < 10);
        assert(t =~= seq![
            hex_digit((v / 10 / 10) as int),
            hex_digit(((v / 10) % 10) as int),
            hex_digit((v % 10) as int),
        ]);
    }
    assert(forall|i: int| 0 <= i < t.len() ==> is_digit(#[trigger] t[i]));
}

pub proof fn lemma_group_text(v: nat)
    requires
        v < 65536,
    ensures
        is_hex_field(group_text(v)),
        digits_value(group_text(v), 16) == v,
    decreases v,
{
    crate::proto::lemma_hex_digit((v % 16) as int);
    if v < 16 {
        assert(group_text(v).drop_last() =~= Seq::<char>::empty());
        assert(digits_value(group_text(v), 16) == digits_value(Seq::<char>::empty(), 16) * 16 + hex_value(hex_digit(v as int)));
    } else {
        lemma_group_text(v / 16);
        let t0 = group_text(v / 16);
        let t = group_text(v);
        assert(t.drop_last() =~= t0);
        assert(t.last() == hex_digit((v % 16) as int));
        assert(digits_value(t, 16) == digits_value(t0, 16) * 16 + hex_value(hex_digit((v % 16) as int)));
        assert(v / 16 < 4096);
        if t0.len() == 4 {
            // a fourth digit before this one would make v at least 65536
            lemma_group_len(v / 16);
        }
        assert forall|i: int| 0 <= i < t.len() implies is_hex_char(#[trigger] t[i]) by {
            if i < t0.len() {
                assert(t[i] == t0[i]);
            }
        }
    }
}

pub proof fn lemma_group_len(v: nat)
    ensures
        group_text(v).len() >= 1,
        v < 4096 ==> group_text(v).len() <= 3,
        v < 256 ==> group_text(v).len() <= 2,
        v < 16 ==> group_text(v).len() <= 1,
    decreases v,
{
    if v >= 16 {
        lemma_group_len(v / 16);
    }
}

pub proof fn lemma_protocol_lower(p: Protocol)
    ensures
        lower_text(protocol_text(p)) == protocol_text(p),
        parse_protocol(protocol_text(p)) == Some(p),
        forall|i: int| 0 <= i < protocol_text(p).len() ==> #[trigger] protocol_text(p)[i] != '@',
{
    assert(lower_text(protocol_text(p)) =~= protocol_text(p));
}

pub proof fn lemma_zero_scan(g: Seq<int>, i: int)
    requires
        g.len() == 8,
        0 <= i <= 8,
    ensures
        ({
            let z = zero_scan(g, i);
            &&& 0 <= z.0 && 0 <= z.1 && z.0 + z.1 <= i
            &&& forall|k: int| z.0 <= k < z.0 + z.1 ==> g[k] == 0
            &&& 0 <= z.2 && 0 <= z.3 && (z.3 > 0 ==> z.2 + z.3 == i)
            &&& forall|k: int| z.2 <= k < z.2 + z.3 ==> g[k] == 0
        }),
    decreases i,
{
    if i > 0 {
        lemma_zero_scan(g, i - 1);
    }
}

/// No two `:` side by side.
pub open spec fn no_adjacent(t: Seq<char>) -> bool {
    forall|i: int| 0 <= i < t.len() - 1 ==> !(#[trigger] t[i] == ':' && t[i + 1] == ':')
}

pub proof fn lemma_join_shape(parts: Seq<Seq<char>>)
    requires
        forall|k: int| 0 <= k < parts.len() ==> #[trigger] parts[k].len() > 0,
        forall|k: int, i: int| 0 <= k < parts.len() && 0 <= i < parts[k].len() ==> #[trigger] parts[k][i] != ':',
    ensures
        no_adjacent(join_with(parts, ':')),
        parts.len() > 0 ==> join_with(parts, ':').len() > 0 && join_with(parts, ':').last() != ':',
    decreases parts.len(),
{
    let j = join_with(parts, ':');
    if parts.len() == 1 {
        assert(parts[0].len() > 0);
        assert forall|i: int| 0 <= i < j.len() - 1 implies !(#[trigger] j[i] == ':' && j[i + 1] == ':') by {
            assert(parts[0][i] != ':');
        }
        assert(parts[0][parts[0].len() - 1] != ':');
    } else if parts.len() >= 2 {
        let front = parts.drop_last();
        lemma_join_shape(front);
        let j0 = join_with(front, ':');
        let l = parts.last();
        assert(l == parts[parts.len() - 1]);
        assert(l.len() > 0);
        assert forall|i: int| 0 <= i < l.len() implies l[i] != ':' by {
            assert(parts[parts.len() - 1][i] != ':');
        }
        assert forall|i: int| 0 <= i < j.len() - 1 implies !(#[trigger] j[i] == ':' && j[i + 1] == ':') by {
            if i < j0.len() - 1 {
                assert(j[i] == j0[i] && j[i + 1] == j0[i + 1]);
            } else if i == j0.len() - 1 {
                assert(j[i] == j0.last());
            } else if i == j0.len() {
                assert(j[i + 1] == l[0]);
            } else {
                assert(j[i] == l[i - j0.len() - 1]);
            }
        }
        assert(j.last() == l.last());
    }
}

pub proof fn lemma_no_double_colon(t: Seq<char>, i: int)
    requires
        no_adjacent(t),
        0 <= i,
    ensures
        double_colon_from(t, i) == -1,
    decreases t.len() - i,
{
    if i + 1 < t.len() {
        assert(!(t[i] == ':' && t[i + 1] == ':'));
        lemma_no_double_colon(t, i + 1);
    }
}

pub proof fn lemma_first_double_colon(h: Seq<char>, tl: Seq<char>, i: int)
    requires
        no_adjacent(h),
        h.len() > 0 ==> h.last() != ':',
        0 <= i <= h.len(),
    ensures
        double_colon_from(h + seq![':', ':'] + tl, i) == h.len(),
    decreases h.len() - i,
{
    let t = h + seq![':', ':'] + tl;
    if i < h.len() {
        if i + 1 < h.len() {
            assert(t[i] == h[i] && t[i + 1] == h[i + 1]);
            assert(!(h[i] == ':' && h[i + 1] == ':'));
        } else {
            assert(t[i] == h.last());
        }
        lemma_first_double_colon(h, tl, i + 1);
    } else {
        assert(t[i] == ':' && t[i + 1] == ':');
    }
}

pub proof fn lemma_hex_parts(g: Seq<int>)
    requires
        forall|i: int| 0 <= i < g.len() ==> 0 <= #[trigger] g[i] < 65536,
    ensures
        forall|k: int| 0 <= k < g.len() ==> is_hex_field(#[trigger] hex_parts(g)[k]),
        forall|k: int| 0 <= k < g.len() ==> #[trigger] hex_parts(g)[k].len() > 0,
        forall|k: int, i: int|
            0 <= k < g.len() && 0 <= i < hex_parts(g)[k].len() ==> #[trigger] hex_parts(g)[k][i] != ':'
                && hex_parts(g)[k][i] != '@',
        colon_pieces(join_with(hex_parts(g), ':')) == hex_parts(g),
        groups_of(hex_parts(g)) == g,
        no_adjacent(join_with(hex_parts(g), ':')),
        g.len() > 0 ==> join_with(hex_parts(g), ':').last() != ':',
{
    let p = hex_parts(g);
    assert forall|k: int| 0 <= k < g.len() implies is_hex_field(#[trigger] p[k]) && digits_value(p[k], 16) == g[k] by {
        lemma_group_text(g[k] as nat);
    }
    assert forall|k: int, i: int|
        0 <= k < g.len() && 0 <= i < p[k].len() implies #[trigger] p[k][i] != ':' && p[k][i] != '@' by {
        assert(is_hex_field(p[k]));
        assert(is_hex_char(p[k][i]));
    }
    lemma_join_shape(p);
    if g.len() > 0 {
        lemma_split_join(p, ':');
    } else {
        assert(join_with(p, ':') =~= Seq::<char>::empty());
        assert(colon_pieces(Seq::<char>::empty()) =~= p);
    }
    lemma_groups_all_hex(p);
    assert(groups_of(p) =~= g);
}

pub proof fn lemma_join_split(t: Seq<char>, c: char)
    ensures
        join_with(split_on(t, c), c) == t,
    decreases t.len(),
{
    if t.len() > 0 {
        let t0 = t.drop_last();
        lemma_join_split(t0, c);
        lemma_split_len(t0, c);
        let r = split_on(t0, c);
        if t.last() == c {
            assert(r.push(Seq::empty()).drop_last() =~= r);
            assert(join_with(r.push(Seq::empty()), c) =~= t);
        } else {
            lemma_join_update_last(r, c, t.last());
            assert(t =~= t0.push(t.last()));
        }
    }
}

pub proof fn lemma_join_update_last(r: Seq<Seq<char>>, c: char, x: char)
    requires
        r.len() >= 1,
    ensures
        join_with(r.update(r.len() - 1, r.last().push(x)), c) == join_with(r, c).push(x),
{
    let u = r.update(r.len() - 1, r.last().push(x));
    if r.len() == 1 {
        assert(u[0] == r[0].push(x));
    } else {
        assert(u.drop_last() =~= r.drop_last());
        assert(u.last() == r.last().push(x));
        assert(join_with(u, c) =~= join_with(r, c).push(x));
    }
}

/// Dotted-decimal text holds no `:`.
pub proof fn lemma_v4_text_chars(t: Seq<char>)
    requires
        is_v4_text(t),
    ensures
        forall|i: int| 0 <= i < t.len() ==> #[trigger] t[i] != ':',
{
    let f = split_on(t, '.');
    lemma_join_split(t, '.');
    assert forall|k: int, i: int| 0 <= k < f.len() && 0 <= i < f[k].len() implies #[trigger] f[k][i] != ':' by {
        assert(is_dec_field(f[k]));
        assert(is_digit(f[k][i]));
    }
    lemma_join_chars(f, '.', ':');
}

pub proof fn lemma_v4_round_trip(b: Seq<u8>)
    requires
        b.len() == 4,
    ensures
        is_v4_text(ipv4_text(b)),
        v4_bytes(ipv4_text(b)) == b,
        forall|i: int| 0 <= i < ipv4_text(b).len() ==> #[trigger] ipv4_text(b)[i] != ':' && ipv4_text(b)[i] != '@',
        ipv4_text(b).len() >= 7,
{
    let t = ipv4_text(b);
    let parts = Seq::new(4, |i: int| dec_text(b[i] as nat));
    assert forall|k: int, i: int| 0 <= k < parts.len() && 0 <= i < parts[k].len() implies #[trigger] parts[k][i]
        != '.' && parts[k][i] != ':' && parts[k][i] != '@' by {
        lemma_dec_text(b[k] as nat);
        assert(is_digit(dec_text(b[k] as nat)[i]));
    }
    assert forall|k: int| 0 <= k < parts.len() implies #[trigger] parts[k].len() > 0 by {
        lemma_dec_text(b[k] as nat);
    }
    lemma_split_join(parts, '.');
    assert forall|i: int| 0 <= i < 4 implies is_dec_field(#[trigger] split_on(t, '.')[i]) by {
        lemma_dec_text(b[i] as nat);
    }
    assert forall|k: int| 0 <= k < 4 implies v4_bytes(t)[k] == b[k] by {
        lemma_dec_text(b[k] as nat);
    }
    assert(v4_bytes(t) =~= b);
    lemma_join_chars(parts, '.', ':');
    lemma_join_chars(parts, '.', '@');
    lemma_join_len(parts, '.');
}

pub proof fn lemma_join_len(parts: Seq<Seq<char>>, c: char)
    requires
        forall|k: int| 0 <= k < parts.len() ==> #[trigger] parts[k].len() > 0,
    ensures
        join_with(parts, c).len() >= 2 * parts.len() - 1,
    decreases parts.len(),
{
    if parts.len() >= 2 {
        lemma_join_len(parts.drop_last(), c);
        assert(parts[parts.len() - 1].len() > 0);
    } else if parts.len() == 1 {
        assert(parts[0].len() > 0);
    }
}

proof fn lemma_address_chars(a: AddressModel)
    requires
        address_wf(a),
    ensures
        forall|i: int| 0 <= i < address_text(a).len() ==> #[trigger] address_text(a)[i] != '@',
{
    match a {
        AddressModel::V4(b) => {
            lemma_v4_round_trip(b);
        },
        AddressModel::V6(b) => {
            if is_v4_mapped(b) {
                lemma_v6_chars_mapped(b);
            } else {
                lemma_v6_chars_plain(b);
            }
        },
    }
}

#[verifier::rlimit(100)]
proof fn lemma_v6_chars_mapped(b: Seq<u8>)
    requires
        b.len() == 16,
        is_v4_mapped(b),
    ensures
        forall|i: int| 0 <= i < ipv6_text(b).len() ==> #[trigger] ipv6_text(b)[i] != '@',
{
    let t = ipv6_text(b);
    let v4 = ipv4_text(b.subrange(12, 16));
    lemma_v4_round_trip(b.subrange(12, 16));
    assert(t == seq![':', ':', 'f', 'f', 'f', 'f', ':'] + v4);
    assert forall|i: int| 0 <= i < t.len() implies #[trigger] t[i] != '@' by {
        if i >= 7 {
            assert(t[i] == v4[i - 7]);
        }
    }
}

proof fn lemma_compressed_chars(g1: Seq<int>, g2: Seq<int>)
    requires
        forall|i: int| 0 <= i < g1.len() ==> 0 <= #[trigger] g1[i] < 65536,
        forall|i: int| 0 <= i < g2.len() ==> 0 <= #[trigger] g2[i] < 65536,
    ensures
        ({
            let t = join_with(hex_parts(g1), ':') + seq![':', ':'] + join_with(hex_parts(g2), ':');
            forall|i: int| 0 <= i < t.len() ==> #[trigger] t[i] != '@'
        }),
        forall|i: int|
            0 <= i < join_with(hex_parts(g1), ':').len() ==> #[trigger] join_with(hex_parts(g1), ':')[i]
                != '@',
{
    lemma_hex_parts(g1);
    lemma_hex_parts(g2);
    let h = join_with(hex_parts(g1), ':');
    let tl = join_with(hex_parts(g2), ':');
    lemma_join_chars(hex_parts(g1), ':', '@');
    lemma_join_chars(hex_parts(g2), ':', '@');
    let t = h + seq![':', ':'] + tl;
    assert forall|i: int| 0 <= i < t.len() implies #[trigger] t[i] != '@' by {
        if i < h.len() {
            assert(t[i] == h[i]);
        } else if i >= h.len() + 2 {
            assert(t[i] == tl[i - h.len() - 2]);
        }
    }
}

#[verifier::rlimit(100)]
proof fn lemma_v6_chars_plain(b: Seq<u8>)
    requires
        b.len() == 16,
        !is_v4_mapped(b),
    ensures
        forall|i: int| 0 <= i < ipv6_text(b).len() ==> #[trigger] ipv6_text(b)[i] != '@',
{
    let g = v6_groups_of_bytes(b);
    lemma_groups_bounded(b);
    let z = zero_scan(g, 8);
    lemma_zero_scan(g, 8);
    if z.1 > 1 {
        lemma_compressed_chars(g.subrange(0, z.0), g.subrange(z.0 + z.1, 8));
    } else {
        lemma_compressed_chars(g, Seq::empty());
    }
}

proof fn lemma_groups_bounded(b: Seq<u8>)
    requires
        b.len() == 16,
    ensures
        forall|i: int| 0 <= i < 8 ==> 0 <= #[trigger] v6_groups_of_bytes(b)[i] < 65536,
        forall|i: int| 0 <= i < v6_groups_of_bytes(b).len() ==> 0 <= #[trigger] v6_groups_of_bytes(b)[i] < 65536,
        v6_groups_of_bytes(b).len() == 8,
        v6_bytes(v6_groups_of_bytes(b)) == b,
{
    let g = v6_groups_of_bytes(b);
    assert forall|i: int| 0 <= i < 8 implies 0 <= #[trigger] g[i] < 65536 by {
        let hi = b[2 * i] as int;
        let lo = b[2 * i + 1] as int;
        assert(0 <= hi * 256 + lo < 65536) by (nonlinear_arith)
            requires
                0 <= hi < 256,
                0 <= lo < 256,
        ;
    }
    assert forall|k: int| 0 <= k < 16 implies #[trigger] v6_bytes(g)[k] == b[k] by {
        let h = k / 2;
        let hi = b[2 * h] as int;
        let lo = b[2 * h + 1] as int;
        assert((hi * 256 + lo) / 256 == hi && (hi * 256 + lo) % 256 == lo) by (nonlinear_arith)
            requires
                0 <= lo < 256,
                0 <= hi,
        ;
    }
    assert(v6_bytes(g) =~= b);
}

proof fn lemma_ffff()
    ensures
        is_hex_field(seq!['f', 'f', 'f', 'f']),
        digits_value(seq!['f', 'f', 'f', 'f'], 16) == 65535,
{
    let f1 = seq!['f'];
    let f2 = seq!['f', 'f'];
    let f3 = seq!['f', 'f', 'f'];
    let f4 = seq!['f', 'f', 'f', 'f'];
    assert(f1.drop_last() =~= Seq::<char>::empty());
    assert(f2.drop_last() =~= f1);
    assert(f3.drop_last() =~= f2);
    assert(f4.drop_last() =~= f3);
    assert(hex_value('f') == 15);
    assert(f1.last() == 'f' && f2.last() == 'f' && f3.last() == 'f' && f4.last() == 'f');
    assert(digits_value(Seq::<char>::empty(), 16) == 0);
    assert(digits_value(f1, 16) == 15);
    assert(digits_value(f2, 16) == 255);
    assert(digits_value(f3, 16) == 4095);
}

proof fn lemma_parse_mapped(b4: Seq<u8>)
    requires
        b4.len() == 4,
    ensures
        parse_v6_groups(seq![':', ':', 'f', 'f', 'f', 'f', ':'] + ipv4_text(b4)) == Some(
            Seq::new(5, |i: int| 0int) + seq![
                65535int,
                b4[0] as int * 256 + b4[1] as int,
                b4[2] as int * 256 + b4[3] as int,
            ],
        ),
{
    let t = seq![':', ':', 'f', 'f', 'f', 'f', ':'] + ipv4_text(b4);
    let v4 = ipv4_text(b4);
    let ffff = seq!['f', 'f', 'f', 'f'];
    let parts = seq![ffff, v4];
    lemma_ffff();
    lemma_v4_round_trip(b4);
    assert(t[0] == ':' && t[1] == ':');
    assert(double_colon_from(t, 0) == 0);
    assert(t.subrange(0, 0) =~= Seq::<char>::empty());
    assert(parts.drop_last() =~= seq![ffff]);
    assert(join_with(parts.drop_last(), ':') == ffff);
    assert(t.subrange(2, t.len() as int) =~= join_with(parts, ':'));
    assert forall|k: int, i: int| 0 <= k < parts.len() && 0 <= i < parts[k].len() implies #[trigger] parts[k][i]
        != ':' by {
        if k == 1 {
            assert(v4[i] != ':');
        }
    }
    lemma_split_join(parts, ':');
    assert(!is_hex_field(v4));
    assert(parts.drop_last().drop_last() =~= Seq::<Seq<char>>::empty());
    assert(groups_of(parts.drop_last()) =~= seq![65535int]);
    assert(groups_of(parts) =~= seq![
        65535int,
        b4[0] as int * 256 + b4[1] as int,
        b4[2] as int * 256 + b4[3] as int,
    ]);
    assert(groups_of(Seq::<Seq<char>>::empty()) =~= Seq::<int>::empty());
    assert(Seq::<int>::empty() + Seq::new(5, |i: int| 0int) + groups_of(parts) =~= Seq::new(5, |i: int| 0int)
        + groups_of(parts));
}

proof fn lemma_parse_compressed(g1: Seq<int>, g2: Seq<int>)
    requires
        g1.len() + g2.len() <= 7,
        forall|i: int| 0 <= i < g1.len() ==> 0 <= #[trigger] g1[i] < 65536,
        forall|i: int| 0 <= i < g2.len() ==> 0 <= #[trigger] g2[i] < 65536,
    ensures
        parse_v6_groups(join_with(hex_parts(g1), ':') + seq![':', ':'] + join_with(hex_parts(g2), ':'))
            == Some(g1 + Seq::new((8 - g1.len() - g2.len()) as nat, |i: int| 0int) + g2),
{
    lemma_hex_parts(g1);
    lemma_hex_parts(g2);
    let h = join_with(hex_parts(g1), ':');
    let tl = join_with(hex_parts(g2), ':');
    let t = h + seq![':', ':'] + tl;
    lemma_first_double_colon(h, tl, 0);
    assert(t.subrange(0, h.len() as int) =~= h);
    assert(t.subrange(h.len() as int + 2, t.len() as int) =~= tl);
}

proof fn lemma_parse_full(g: Seq<int>)
    requires
        g.len() == 8,
        forall|i: int| 0 <= i < g.len() ==> 0 <= #[trigger] g[i] < 65536,
    ensures
        parse_v6_groups(join_with(hex_parts(g), ':')) == Some(g),
        exists|i: int| 0 <= i < join_with(hex_parts(g), ':').len() && #[trigger] join_with(hex_parts(g), ':')[i] == ':',
{
    lemma_hex_parts(g);
    let t = join_with(hex_parts(g), ':');
    lemma_no_double_colon(t, 0);
    let p = hex_parts(g);
    let front = p.drop_last();
    assert forall|k: int| 0 <= k < front.len() implies #[trigger] front[k].len() > 0 by {
        assert(front[k] == p[k]);
    }
    lemma_join_len(front, ':');
    assert(t[join_with(front, ':').len() as int] == ':');
}

#[verifier::rlimit(100)]
proof fn lemma_v6_mapped_round_trip(b: Seq<u8>)
    requires
        b.len() == 16,
        is_v4_mapped(b),
    ensures
        parse_v6_groups(ipv6_text(b)) matches Some(g) && v6_bytes(g) == b,
        ipv6_text(b)[0] == ':',
{
    let b4 = b.subrange(12, 16);
    lemma_parse_mapped(b4);
    lemma_mapped_bytes(b);
    assert(ipv6_text(b) == seq![':', ':', 'f', 'f', 'f', 'f', ':'] + ipv4_text(b4));
}

proof fn lemma_hi_lo(hi: int, lo: int)
    requires
        0 <= hi < 256,
        0 <= lo < 256,
    ensures
        (hi * 256 + lo) / 256 == hi,
        (hi * 256 + lo) % 256 == lo,
{
    assert((hi * 256 + lo) / 256 == hi && (hi * 256 + lo) % 256 == lo) by (nonlinear_arith)
        requires
            0 <= lo < 256,
            0 <= hi,
    ;
}

#[verifier::rlimit(100)]
proof fn lemma_mapped_bytes(b: Seq<u8>)
    requires
        b.len() == 16,
        is_v4_mapped(b),
    ensures
        v6_bytes(
            Seq::new(5, |i: int| 0int) + seq![
                65535int,
                b[12] as int * 256 + b[13] as int,
                b[14] as int * 256 + b[15] as int,
            ],
        ) == b,
{
    let full = Seq::new(5, |i: int| 0int) + seq![
        65535int,
        b[12] as int * 256 + b[13] as int,
        b[14] as int * 256 + b[15] as int,
    ];
    lemma_hi_lo(b[12] as int, b[13] as int);
    lemma_hi_lo(b[14] as int, b[15] as int);
    lemma_hi_lo(255, 255);
    assert(full[6] == b[12] as int * 256 + b[13] as int);
    assert(full[7] == b[14] as int * 256 + b[15] as int);
    assert(full[5] == 65535);
    let v = v6_bytes(full);
    assert forall|k: int| 0 <= k < 10 implies #[trigger] v[k] == b[k] by {
        assert(full[k / 2] == 0);
        assert(b[k] == 0);
    }
    assert(v[10] == b[10] && v[11] == b[11]);
    assert(v[12] == b[12] && v[13] == b[13] && v[14] == b[14] && v[15] == b[15]);
    assert(v =~= b);
}

#[verifier::rlimit(100)]
proof fn lemma_v6_plain_round_trip(b: Seq<u8>)
    requires
        b.len() == 16,
        !is_v4_mapped(b),
    ensures
        parse_v6_groups(ipv6_text(b)) matches Some(g) && v6_bytes(g) == b,
        exists|i: int| 0 <= i < ipv6_text(b).len() && #[trigger] ipv6_text(b)[i] == ':',
{
    let t = ipv6_text(b);
    let g = v6_groups_of_bytes(b);
    lemma_groups_bounded(b);
    let z = zero_scan(g, 8);
    lemma_zero_scan(g, 8);
    if z.1 > 1 {
        let g1 = g.subrange(0, z.0);
        let g2 = g.subrange(z.0 + z.1, 8);
        lemma_parse_compressed(g1, g2);
        let h = join_with(hex_parts(g1), ':');
        assert(t[h.len() as int] == ':');
        assert(g1 + Seq::new((8 - g1.len() - g2.len()) as nat, |i: int| 0int) + g2 =~= g);
    } else {
        lemma_parse_full(g);
    }
}

proof fn lemma_address_round_trip(a: AddressModel)
    requires
        address_wf(a),
    ensures
        parse_address(address_text(a)) == Some(a),
{
    match a {
        AddressModel::V4(b) => {
            lemma_v4_round_trip(b);
        },
        AddressModel::V6(b) => {
            let t = address_text(a);
            if is_v4_mapped(b) {
                lemma_v6_mapped_round_trip(b);
            } else {
                lemma_v6_plain_round_trip(b);
            }
            if is_v4_text(t) {
                lemma_v4_text_chars(t);
            }
        },
    }
}

proof fn lemma_groups_all_hex(p: Seq<Seq<char>>)
    requires
        forall|i: int| 0 <= i < p.len() ==> is_hex_field(#[trigger] p[i]),
    ensures
        groups_of(p) == Seq::new(p.len(), |i: int| digits_value(p[i], 16)),
    decreases p.len(),
{
    if p.len() > 0 {
        let q = p.drop_last();
        assert forall|i: int| 0 <= i < q.len() implies is_hex_field(#[trigger] q[i]) by {
            assert(q[i] == p[i]);
        }
        lemma_groups_all_hex(q);
        assert(is_hex_field(p[p.len() - 1]));
        assert(groups_of(p) =~= Seq::new(p.len(), |i: int| digits_value(p[i], 16)));
    }
}

/// Reading back the text of a peer gives the same peer.
pub proof fn lemma_peer_text_round_trip(p: PeerModel)
    requires
        address_wf(p.address),
    ensures
        parse_peer(peer_text(p)) == Some(p),
{
    let parts = seq![protocol_text(p.protocol), address_text(p.address)];
    lemma_protocol_lower(p.protocol);
    lemma_address_chars(p.address);
    assert forall|k: int, i: int| 0 <= k < parts.len() && 0 <= i < parts[k].len() implies #[trigger] parts[k][i]
        != '@' by {
        if k == 0 {
            assert(protocol_text(p.protocol)[i] != '@');
        } else {
            assert(address_text(p.address)[i] != '@');
        }
    }
    assert(join_with(parts, '@') =~= peer_text(p)) by {
        assert(parts.drop_last() =~= seq![protocol_text(p.protocol)]);
        assert(join_with(parts.drop_last(), '@') == protocol_text(p.protocol));
        assert(parts.last() == address_text(p.address));
    }
    lemma_split_join(parts, '@');
    lemma_address_round_trip(p.address);
}

} // verus!

verus! {

/// Relies on std's `String: FromIterator<char>`: the characters, in order.
#[verifier::external_body]
fn text_from_chars(v: &Vec<char>) -> (r: String)
    ensures
        r@ == v@,
{
    v.iter().collect()
}

fn digit_char(d: u8) -> (c: char)
    requires
        d < 16,
    ensures
        c == hex_digit(d as int),
{
    if d < 10 {
        (d + 48) as char
    } else {
        (d - 10 + 97) as char
    }
}

fn push_dec(out: &mut Vec<char>, v: u8)
    ensures
        final(out)@ == old(out)@ + dec_text(v as nat),
    decreases v,
{
    if v < 10 {
        out.push(digit_char(v));
        assert(final(out)@ =~= old(out)@ + dec_text(v as nat));
    } else {
        push_dec(out, v / 10);
        out.push(digit_char(v % 10));
        assert(final(out)@ =~= old(out)@ + dec_text(v as nat));
    }
}

fn push_group(out: &mut Vec<char>, v: u16)
    ensures
        final(out)@ == old(out)@ + group_text(v as nat),
    decreases v,
{
    if v < 16 {
        out.push(digit_char(v as u8));
        assert(final(out)@ =~= old(out)@ + group_text(v as nat));
    } else {
        push_group(out, v / 16);
        out.push(digit_char((v % 16) as u8));
        assert(final(out)@ =~= old(out)@ + group_text(v as nat));
    }
}

fn protocol_chars(p: Protocol) -> (r: Vec<char>)
    ensures
        r@ == protocol_text(p),
{
    let v = match p {
        Protocol::Tcp => vec!['t', 'c', 'p'],
        Protocol::Unix => vec!['u', 'n', 'i', 'x'],
        Protocol::Http => vec!['h', 't', 't', 'p'],
        Protocol::Bluetooth => vec!['b', 'l', 'u', 'e', 't', 'o', 'o', 't', 'h'],
    };
    assert(v@ =~= protocol_text(p));
    v
}

fn push_ipv4(out: &mut Vec<char>, b: [u8; 4])
    ensures
        final(out)@ == old(out)@ + ipv4_text(b@),
{
    let ghost parts = Seq::new(4, |i: int| dec_text(b@[i] as nat));
    let mut i: usize = 0;
    while i < 4
        invariant
            i <= 4,
            parts == Seq::new(4, |i: int| dec_text(b@[i] as nat)),
            i == 0 ==> out@ == old(out)@,
            i > 0 ==> out@ == old(out)@ + join_with(parts.subrange(0, i as int), '.'),
        decreases 4 - i,
    {
        if i > 0 {
            out.push('.');
        }
        push_dec(out, b[i]);
        proof {
            let sub = parts.subrange(0, i + 1);
            if i > 0 {
                assert(sub.drop_last() =~= parts.subrange(0, i as int));
            }
            assert(out@ =~= old(out)@ + join_with(sub, '.'));
        }
        i = i + 1;
    }
    assert(parts.subrange(0, 4) =~= parts);
}

pub open spec fn u16_ints(g: Seq<u16>) -> Seq<int> {
    g.map_values(|x: u16| x as int)
}

fn push_groups(out: &mut Vec<char>, g: &[u16; 8], from: usize, to: usize)
    requires
        from <= to <= 8,
    ensures
        final(out)@ == old(out)@ + join_with(hex_parts(u16_ints(g@).subrange(from as int, to as int)), ':'),
{
    let ghost parts = hex_parts(u16_ints(g@).subrange(from as int, to as int));
    let mut i: usize = from;
    while i < to
        invariant
            from <= i <= to <= 8,
            g@.len() == 8,
            parts == hex_parts(u16_ints(g@).subrange(from as int, to as int)),
            i == from ==> out@ == old(out)@,
            i > from ==> out@ == old(out)@ + join_with(parts.subrange(0, i - from), ':'),
        decreases to - i,
    {
        if i > from {
            out.push(':');
        }
        push_group(out, g[i]);
        proof {
            let sub = parts.subrange(0, i + 1 - from);
            assert(parts[i - from] == group_text(g@[i as int] as nat));
            if i > from {
                assert(sub.drop_last() =~= parts.subrange(0, i - from));
            }
            assert(out@ =~= old(out)@ + join_with(sub, ':'));
        }
        i = i + 1;
    }
    assert(parts.subrange(0, to - from) =~= parts);
    if from == to {
        assert(join_with(parts, ':') =~= Seq::<char>::empty());
        assert(out@ =~= old(out)@ + join_with(parts, ':'));
    }
}

fn push_address(out: &mut Vec<char>, a: &Address)
    ensures
        final(out)@ == old(out)@ + address_text(a@),
{
    match a {
        Address::Ip(IpAddress::V4(b)) => {
            push_ipv4(out, *b);
        },
        Address::Ip(IpAddress::V6(b)) => {
            let mut mapped = b[10] == 255 && b[11] == 255;
            let mut k: usize = 0;
            while k < 10
                invariant
                    k <= 10,
                    b@.len() == 16,
                    mapped == (b@[10] == 255 && b@[11] == 255 && forall|j: int| 0 <= j < k ==> b@[j] == 0),
                decreases 10 - k,
            {
                if b[k] != 0 {
                    mapped = false;
                }
                k = k + 1;
            }
            if mapped {
                out.push(':');
                out.push(':');
                out.push('f');
                out.push('f');
                out.push('f');
                out.push('f');
                out.push(':');
                let ghost mid = out@;
                push_ipv4(out, [b[12], b[13], b[14], b[15]]);
                assert([b[12], b[13], b[14], b[15]]@ =~= b@.subrange(12, 16));
                assert(out@ =~= old(out)@ + address_text(a@));
            } else {
                let ghost gv = v6_groups_of_bytes(b@);
                let mut g = [0u16; 8];
                let mut i: usize = 0;
                while i < 8
                    invariant
                        i <= 8,
                        b@.len() == 16,
                        g@.len() == 8,
                        gv == v6_groups_of_bytes(b@),
                        forall|j: int| 0 <= j < i ==> #[trigger] g@[j] as int == gv[j],
                    decreases 8 - i,
                {
                    g[i] = b[2 * i] as u16 * 256 + b[2 * i + 1] as u16;
                    i = i + 1;
                }
                assert(u16_ints(g@) =~= gv);
                let mut ls: usize = 0;
                let mut ll: usize = 0;
                let mut cs: usize = 0;
                let mut cl: usize = 0;
                i = 0;
                while i < 8
                    invariant
                        i <= 8,
                        g@.len() == 8,
                        u16_ints(g@) == gv,
                        gv.len() == 8,
                        zero_scan(gv, i as int) == (ls as int, ll as int, cs as int, cl as int),
                        ls <= 8,
                        ll <= i,
                        cs <= 8,
                        cl <= i,
                    decreases 8 - i,
                {
                    assert(gv[i as int] == g@[i as int] as int);
                    if g[i] == 0 {
                        if cl == 0 {
                            cs = i;
                        }
                        cl = cl + 1;
                        if cl > ll {
                            ls = cs;
                            ll = cl;
                        }
                    } else {
                        cs = 0;
                        cl = 0;
                    }
                    i = i + 1;
                }
                proof {
                    lemma_zero_scan(gv, 8);
                }
                if ll > 1 {
                    push_groups(out, &g, 0, ls);
                    out.push(':');
                    out.push(':');
                    push_groups(out, &g, ls + ll, 8);
                } else {
                    push_groups(out, &g, 0, 8);
                    assert(gv.subrange(0, 8) =~= gv);
                }
                assert(out@ =~= old(out)@ + address_text(a@));
            }
        },
    }
}

impl Protocol {
    /// The protocol's name in lowercase.
    pub fn to_text(&self) -> (r: String)
        ensures
            r@ == protocol_text(*self),
    {
        text_from_chars(&protocol_chars(*self))
    }
}

impl Address {
    /// Dotted decimal for IPv4; for IPv6, lowercase hexadecimal groups with the
    /// first longest run of zero groups as `::`, or `::ffff:` and dotted decimal
    /// for a mapped IPv4 address.
    pub fn to_text(&self) -> (r: String)
        ensures
            r@ == address_text(self@),
    {
        let mut out: Vec<char> = Vec::new();
        push_address(&mut out, self);
        assert(out@ =~= address_text(self@));
        text_from_chars(&out)
    }
}

impl Peer {
    /// The text of the peer: `protocol@address`.
    pub fn to_text(&self) -> (r: String)
        ensures
            r@ == peer_text(self@),
    {
        let mut out = protocol_chars(self.protocol);
        out.push('@');
        push_address(&mut out, &self.address);
        text_from_chars(&out)
    }

    /// Reads a peer from its text (see `parse_peer`).
    pub fn from_text(s: &str) -> (r: Result<Peer, RouteWeaverError>)
        ensures
            match parse_peer(s@) {
                Some(p) => r matches Ok(q) && q@ == p,
                None => r == Err::<Peer, RouteWeaverError>(RouteWeaverError::PeerAddress),
            },
    {
        let t = chars_of(s);
        let parts = split_chars(&t, '@');
        if parts.len() != 2 {
            return Err(RouteWeaverError::PeerAddress);
        }
        assert(parts@[0]@ == split_on(s@, '@')[0]);
        assert(parts@[1]@ == split_on(s@, '@')[1]);
        match (parse_protocol_chars(&parts[0]), parse_address_chars(&parts[1])) {
            (Some(protocol), Some(address)) => Ok(Peer { protocol, address }),
            _ => Err(RouteWeaverError::PeerAddress),
        }
    }
}

fn chars_of(s: &str) -> (r: Vec<char>)
    ensures
        r@ == s@,
{
    let n = s.unicode_len();
    let mut out: Vec<char> = Vec::new();
    let mut i: usize = 0;
    while i < n
        invariant
            i <= n,
            n == s@.len(),
            out@ == s@.subrange(0, i as int),
        decreases n - i,
    {
        out.push(s.get_char(i));
        i = i + 1;
        assert(out@ =~= s@.subrange(0, i as int));
    }
    assert(s@.subrange(0, n as int) =~= s@);
    out
}

pub open spec fn pieces_view(v: Seq<Vec<char>>) -> Seq<Seq<char>> {
    v.map_values(|p: Vec<char>| p@)
}

fn split_chars(t: &Vec<char>, c: char) -> (r: Vec<Vec<char>>)
    ensures
        pieces_view(r@) == split_on(t@, c),
{
    let mut done: Vec<Vec<char>> = Vec::new();
    let mut cur: Vec<char> = Vec::new();
    let mut i: usize = 0;
    assert(t@.subrange(0, 0) =~= Seq::<char>::empty());
    assert(pieces_view(done@).push(cur@) =~= split_on(Seq::<char>::empty(), c));
    while i < t.len()
        invariant
            i <= t@.len(),
            pieces_view(done@).push(cur@) == split_on(t@.subrange(0, i as int), c),
        decreases t@.len() - i,
    {
        let x = t[i];
        let ghost pre = t@.subrange(0, i as int);
        let ghost old_done = done@;
        let ghost old_cur = cur@;
        assert(t@.subrange(0, i + 1).drop_last() =~= pre);
        if x == c {
            let piece = cur;
            done.push(piece);
            cur = Vec::new();
            assert(pieces_view(done@) =~= pieces_view(old_done).push(old_cur));
            assert(pieces_view(done@).push(cur@) =~= split_on(pre, c).push(Seq::empty()));
        } else {
            cur.push(x);
            assert(pieces_view(done@).push(cur@) =~= split_on(pre, c).update(
                split_on(pre, c).len() - 1,
                split_on(pre, c).last().push(x),
            ));
        }
        i = i + 1;
    }
    assert(t@.subrange(0, t@.len() as int) =~= t@);
    done.push(cur);
    assert(pieces_view(done@) =~= split_on(t@, c));
    done
}

fn lower_char(c: char) -> (r: char)
    ensures
        r == lower(c),
{
    if 'A' <= c && c <= 'Z' {
        ((c as u32 + 32) as u8) as char
    } else {
        c
    }
}

fn same_chars(a: &Vec<char>, b: &Vec<char>) -> (r: bool)
    ensures
        r == (a@ == b@),
{
    if a.len() != b.len() {
        return false;
    }
    let mut i: usize = 0;
    while i < a.len()
        invariant
            i <= a@.len(),
            a@.len() == b@.len(),
            forall|j: int| 0 <= j < i ==> a@[j] == b@[j],
        decreases a@.len() - i,
    {
        if a[i] != b[i] {
            return false;
        }
        i = i + 1;
    }
    assert(a@ =~= b@);
    true
}

fn parse_protocol_chars(t: &Vec<char>) -> (r: Option<Protocol>)
    ensures
        r == parse_protocol(t@),
{
    let mut l: Vec<char> = Vec::new();
    let mut i: usize = 0;
    while i < t.len()
        invariant
            i <= t@.len(),
            l@ == lower_text(t@.subrange(0, i as int)),
        decreases t@.len() - i,
    {
        l.push(lower_char(t[i]));
        i = i + 1;
        assert(l@ =~= lower_text(t@.subrange(0, i as int)));
    }
    assert(t@.subrange(0, t@.len() as int) =~= t@);
    if same_chars(&l, &protocol_chars(Protocol::Tcp)) {
        Some(Protocol::Tcp)
    } else if same_chars(&l, &protocol_chars(Protocol::Unix)) {
        Some(Protocol::Unix)
    } else if same_chars(&l, &protocol_chars(Protocol::Http)) {
        Some(Protocol::Http)
    } else if same_chars(&l, &protocol_chars(Protocol::Bluetooth)) {
        Some(Protocol::Bluetooth)
    } else {
        None
    }
}

fn hex_char_value(c: char) -> (r: u8)
    requires
        is_hex_char(c),
    ensures
        r as int == hex_value(c),
        r < 16,
{
    if '0' <= c && c <= '9' {
        (c as u32 - 48) as u8
    } else if 'a' <= c && c <= 'f' {
        (c as u32 - 87) as u8
    } else {
        (c as u32 - 55) as u8
    }
}

fn is_hex_char_exec(c: char) -> (r: bool)
    ensures
        r == is_hex_char(c),
{
    ('0' <= c && c <= '9') || ('a' <= c && c <= 'f') || ('A' <= c && c <= 'F')
}

fn dec_field_value(t: &Vec<char>) -> (r: Option<u8>)
    ensures
        r is Some <==> is_dec_field(t@),
        r matches Some(v) ==> v as int == digits_value(t@, 10),
{
    let n = t.len();
    if n < 1 || n > 3 {
        return None;
    }
    let mut v: u32 = 0;
    let mut i: usize = 0;
    while i < n
        invariant
            i <= n,
            1 <= n <= 3,
            n == t@.len(),
            v as int == digits_value(t@.subrange(0, i as int), 10),
            v < 1000,
            i <= 1 ==> v < 10,
            i <= 2 ==> v < 100,
            forall|j: int| 0 <= j < i ==> is_digit(#[trigger] t@[j]),
        decreases n - i,
    {
        let c = t[i];
        if !('0' <= c && c <= '9') {
            return None;
        }
        let d = hex_char_value(c);
        assert(t@.subrange(0, i + 1).drop_last() =~= t@.subrange(0, i as int));
        v = v * 10 + d as u32;
        i = i + 1;
    }
    assert(t@.subrange(0, n as int) =~= t@);
    if n > 1 && t[0] == '0' {
        return None;
    }
    if v > 255 {
        return None;
    }
    Some(v as u8)
}

fn hex_field_value(t: &Vec<char>) -> (r: Option<u16>)
    ensures
        r is Some <==> is_hex_field(t@),
        r matches Some(v) ==> v as int == digits_value(t@, 16),
{
    let n = t.len();
    if n < 1 || n > 4 {
        return None;
    }
    let mut v: u32 = 0;
    let mut i: usize = 0;
    while i < n
        invariant
            i <= n,
            1 <= n <= 4,
            n == t@.len(),
            v as int == digits_value(t@.subrange(0, i as int), 16),
            v < 65536,
            i <= 1 ==> v < 16,
            i <= 2 ==> v < 256,
            i <= 3 ==> v < 4096,
            i == 0 ==> v == 0,
            forall|j: int| 0 <= j < i ==> is_hex_char(#[trigger] t@[j]),
        decreases n - i,
    {
        let c = t[i];
        if !is_hex_char_exec(c) {
            return None;
        }
        let d = hex_char_value(c);
        assert(t@.subrange(0, i + 1).drop_last() =~= t@.subrange(0, i as int));
        v = v * 16 + d as u32;
        i = i + 1;
    }
    assert(t@.subrange(0, n as int) =~= t@);
    Some(v as u16)
}

fn parse_v4_chars(t: &Vec<char>) -> (r: Option<[u8; 4]>)
    ensures
        r is Some <==> is_v4_text(t@),
        r matches Some(b) ==> b@ == v4_bytes(t@),
{
    let fields = split_chars(t, '.');
    assert(pieces_view(fields@).len() == fields@.len());
    if fields.len() != 4 {
        return None;
    }
    let mut b = [0u8; 4];
    let mut i: usize = 0;
    while i < 4
        invariant
            i <= 4,
            fields@.len() == 4,
            pieces_view(fields@) == split_on(t@, '.'),
            b@.len() == 4,
            forall|j: int| 0 <= j < i ==> is_dec_field(#[trigger] split_on(t@, '.')[j]),
            forall|k: int| 0 <= k < i ==> #[trigger] b@[k] == digits_value(split_on(t@, '.')[k], 10) as u8,
        decreases 4 - i,
    {
        assert(fields@[i as int]@ == split_on(t@, '.')[i as int]);
        match dec_field_value(&fields[i]) {
            Some(v) => {
                b[i] = v;
            },
            None => {
                return None;
            },
        }
        i = i + 1;
    }
    assert(b@ =~= v4_bytes(t@));
    Some(b)
}

pub open spec fn group_ints(g: Seq<u16>) -> Seq<int> {
    g.map_values(|x: u16| x as int)
}

fn groups_exec(p: &Vec<Vec<char>>, v4_last: bool) -> (r: Option<Vec<u16>>)
    ensures
        r is Some <==> pieces_ok(pieces_view(p@), v4_last),
        r matches Some(g) ==> group_ints(g@) == groups_of(pieces_view(p@)),
{
    let ghost pv = pieces_view(p@);
    let n = p.len();
    assert(pv.len() == n);
    let mut g: Vec<u16> = Vec::new();
    let mut i: usize = 0;
    assert(pv.subrange(0, 0) =~= Seq::<Seq<char>>::empty());
    assert(group_ints(g@) =~= Seq::<int>::empty());
    while i < n
        invariant
            i <= n,
            n == p@.len(),
            pv == pieces_view(p@),
            pv.len() == n,
            group_ints(g@) == groups_of(pv.subrange(0, i as int)),
            forall|j: int|
                0 <= j < i ==> is_hex_field(#[trigger] pv[j]) || (j == n - 1 && v4_last && is_v4_text(
                    pv[j],
                )),
        decreases n - i,
    {
        let ghost q = pv[i as int];
        assert(p@[i as int]@ == q);
        assert(pv.subrange(0, i + 1).drop_last() =~= pv.subrange(0, i as int));
        assert(pv.subrange(0, i + 1).last() == q);
        match hex_field_value(&p[i]) {
            Some(v) => {
                g.push(v);
                assert(group_ints(g@) =~= groups_of(pv.subrange(0, i + 1)));
            },
            None => {
                if v4_last && i + 1 == n {
                    match parse_v4_chars(&p[i]) {
                        Some(b) => {
                            g.push(b[0] as u16 * 256 + b[1] as u16);
                            g.push(b[2] as u16 * 256 + b[3] as u16);
                            assert(group_ints(g@) =~= groups_of(pv.subrange(0, i + 1)));
                        },
                        None => {
                            return None;
                        },
                    }
                } else {
                    return None;
                }
            },
        }
        i = i + 1;
    }
    assert(pv.subrange(0, n as int) =~= pv);
    Some(g)
}

fn find_double_colon(t: &Vec<char>) -> (r: Option<usize>)
    ensures
        match r {
            Some(k) => double_colon_from(t@, 0) == k as int && k + 2 <= t@.len(),
            None => double_colon_from(t@, 0) == -1,
        },
{
    let mut i: usize = 0;
    let n = t.len();
    while n - i > 1
        invariant
            i <= n,
            n == t@.len(),
            double_colon_from(t@, 0) == double_colon_from(t@, i as int),
        decreases t@.len() - i,
    {
        if t[i] == ':' && t[i + 1] == ':' {
            return Some(i);
        }
        i = i + 1;
    }
    None
}

fn sub_chars(t: &Vec<char>, from: usize, to: usize) -> (r: Vec<char>)
    requires
        from <= to <= t@.len(),
    ensures
        r@ == t@.subrange(from as int, to as int),
{
    let mut out: Vec<char> = Vec::new();
    let mut k: usize = from;
    while k < to
        invariant
            from <= k <= to,
            to <= t@.len(),
            out@ == t@.subrange(from as int, k as int),
        decreases to - k,
    {
        out.push(t[k]);
        k = k + 1;
        assert(out@ =~= t@.subrange(from as int, k as int));
    }
    out
}

fn colon_pieces_exec(t: &Vec<char>) -> (r: Vec<Vec<char>>)
    ensures
        pieces_view(r@) == colon_pieces(t@),
{
    if t.len() == 0 {
        let r: Vec<Vec<char>> = Vec::new();
        assert(pieces_view(r@) =~= Seq::<Seq<char>>::empty());
        r
    } else {
        split_chars(t, ':')
    }
}

fn bytes_of_groups(g: &Vec<u16>) -> (r: [u8; 16])
    requires
        g@.len() == 8,
    ensures
        r@ == v6_bytes(group_ints(g@)),
{
    let mut b = [0u8; 16];
    let mut i: usize = 0;
    while i < 8
        invariant
            i <= 8,
            g@.len() == 8,
            b@.len() == 16,
            forall|k: int| 0 <= k < 2 * i ==> #[trigger] b@[k] == v6_bytes(group_ints(g@))[k],
        decreases 8 - i,
    {
        b[2 * i] = (g[i] / 256) as u8;
        b[2 * i + 1] = (g[i] % 256) as u8;
        assert((2 * i as int) / 2 == i as int);
        assert((2 * i as int + 1) / 2 == i as int);
        i = i + 1;
    }
    assert(b@ =~= v6_bytes(group_ints(g@)));
    b
}

fn parse_v6_chars(t: &Vec<char>) -> (r: Option<[u8; 16]>)
    ensures
        match parse_v6_groups(t@) {
            Some(g) => r matches Some(b) && b@ == v6_bytes(g),
            None => r is None,
        },
{
    match find_double_colon(t) {
        None => {
            let p = split_chars(t, ':');
            match groups_exec(&p, true) {
                Some(g) => {
                    if g.len() == 8 {
                        Some(bytes_of_groups(&g))
                    } else {
                        None
                    }
                },
                None => None,
            }
        },
        Some(k) => {
            let head = sub_chars(t, 0, k);
            let tl = t.len();
            let tail = sub_chars(t, k + 2, tl);
            let hp = colon_pieces_exec(&head);
            let tp = colon_pieces_exec(&tail);
            match (groups_exec(&hp, false), groups_exec(&tp, true)) {
                (Some(hg), Some(tg)) => {
                    if hg.len() > 7 || tg.len() > 7 - hg.len() {
                        return None;
                    }
                    let n = hg.len() + tg.len();
                    let mut all: Vec<u16> = Vec::new();
                    let mut j: usize = 0;
                    while j < hg.len()
                        invariant
                            j <= hg@.len(),
                            all@ == hg@.subrange(0, j as int),
                        decreases hg@.len() - j,
                    {
                        all.push(hg[j]);
                        j = j + 1;
                        assert(all@ =~= hg@.subrange(0, j as int));
                    }
                    assert(hg@.subrange(0, hg@.len() as int) =~= hg@);
                    let mut z: usize = 0;
                    while z < 8 - n
                        invariant
                            n <= 7,
                            z <= 8 - n,
                            n == hg@.len() + tg@.len(),
                            all@ == hg@ + Seq::new(z as nat, |i: int| 0u16),
                        decreases 8 - n - z,
                    {
                        all.push(0);
                        z = z + 1;
                        assert(all@ =~= hg@ + Seq::new(z as nat, |i: int| 0u16));
                    }
                    let ghost mid = all@;
                    j = 0;
                    while j < tg.len()
                        invariant
                            j <= tg@.len(),
                            all@ == mid + tg@.subrange(0, j as int),
                        decreases tg@.len() - j,
                    {
                        all.push(tg[j]);
                        j = j + 1;
                        assert(all@ =~= mid + tg@.subrange(0, j as int));
                    }
                    assert(tg@.subrange(0, tg@.len() as int) =~= tg@);
                    assert(group_ints(all@) =~= group_ints(hg@) + Seq::new((8 - n) as nat, |i: int| 0int)
                        + group_ints(tg@));
                    Some(bytes_of_groups(&all))
                },
                _ => None,
            }
        },
    }
}

fn parse_address_chars(t: &Vec<char>) -> (r: Option<Address>)
    ensures
        match parse_address(t@) {
            Some(a) => r matches Some(x) && x@ == a,
            None => r is None,
        },
{
    match parse_v4_chars(t) {
        Some(b) => Some(Address::Ip(IpAddress::V4(b))),
        None => match parse_v6_chars(t) {
            Some(b) => Some(Address::Ip(IpAddress::V6(b))),
            None => None,
        },
    }
}

} // verus!

verus! {

impl core::str::FromStr for Peer {
    type Err = RouteWeaverError;

    fn from_str(s: &str) -> (r: Result<Peer, RouteWeaverError>)
        ensures
            match parse_peer(s@) {
                Some(p) => r matches Ok(q) && q@ == p,
                None => r == Err::<Peer, RouteWeaverError>(RouteWeaverError::PeerAddress),
            },
    {
        Peer::from_text(s)
    }
}

} // verus!
