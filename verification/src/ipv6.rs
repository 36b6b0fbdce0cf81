//! Strict IPv6 literals in hex-group syntax: parsing of
//! colon-separated groups with at most one `::` compression, and the
//! canonical lowercase form with the leftmost longest zero run of two
//! or more groups compressed, IPv4-mapped addresses shown in the
//! mixed `::ffff:a.b.c.d` notation.
//!
//! Dotted mixed notation is not parsed here: in the update protocol a
//! part containing a dot is always classified as an IPv4 literal
//! before IPv6 parsing is ever attempted.

use vstd::prelude::*;
use crate::text::{
    is_hex_digit, hex_digit_val, hex_digit_char, spec_split, spec_join, is_hex_digit_exec,
    hex_digit_val_exec, hex_digit_exec, push_char, split_char, lemma_split_concat,
    lemma_split_join,
};
use crate::ipv4::{Ipv4, spec_ipv4_str, push_dec};

verus! {

/// An IPv6 address as its eight 16-bit groups.
#[derive(Debug, Clone, PartialEq, Eq)]
pub struct Ipv6 {
    pub groups: Vec<u16>,
}

impl Ipv6 {
    pub open spec fn wf(&self) -> bool {
        self.groups@.len() == 8
    }
}

/// The value of a hex digit string, most significant digit first.
pub open spec fn hex_group_val(s: Seq<char>) -> int
    decreases s.len(),
{
    if s.len() == 0 {
        0
    } else {
        hex_group_val(s.drop_last()) * 16 + hex_digit_val(s.last())
    }
}

/// A valid group: one to four hex digits.
pub open spec fn is_valid_group(s: Seq<char>) -> bool {
    1 <= s.len() <= 4 && (forall|i: int| 0 <= i < s.len() ==> is_hex_digit(s[i]))
}

pub open spec fn all_valid_groups(parts: Seq<Seq<char>>, lo: int, hi: int) -> bool {
    forall|j: int| lo <= j < hi ==> is_valid_group(#[trigger] parts[j])
}

/// The position of the first empty part at or after `j`.
pub open spec fn first_empty_from(parts: Seq<Seq<char>>, j: int) -> Option<int>
    decreases parts.len() - j,
{
    if j < 0 || j >= parts.len() {
        None
    } else if parts[j].len() == 0 {
        Some(j)
    } else {
        first_empty_from(parts, j + 1)
    }
}

pub open spec fn group_vals(parts: Seq<Seq<char>>) -> Seq<u16> {
    parts.map_values(|p: Seq<char>| hex_group_val(p) as u16)
}

pub open spec fn zero_groups(k: int) -> Seq<u16> {
    Seq::new(k as nat, |i: int| 0u16)
}

/// The eight groups named by a head part list, an elided all-zero
/// middle, and a tail part list.
pub open spec fn assemble_vals(head: Seq<u16>, tail: Seq<u16>) -> Seq<u16> {
    head + zero_groups(8 - head.len() - tail.len()) + tail
}

/// Strict parse of a hex-groups IPv6 literal: either exactly eight
/// groups and no `::`, or one `::` standing for at least one zero
/// group, with no other empty position.
pub open spec fn spec_parse_ipv6(s: Seq<char>) -> Option<Seq<u16>> {
    let parts = spec_split(s, ':');
    let n = parts.len() as int;
    match first_empty_from(parts, 0) {
        None => if n == 8 && all_valid_groups(parts, 0, 8) {
            Some(group_vals(parts))
        } else {
            None
        },
        Some(i) => {
            if i == 0 {
                if n >= 3 && parts[1].len() == 0 {
                    if n == 3 && parts[2].len() == 0 {
                        Some(zero_groups(8))
                    } else if n - 2 <= 7 && all_valid_groups(parts, 2, n) {
                        Some(assemble_vals(Seq::<u16>::empty(), group_vals(parts.subrange(2, n))))
                    } else {
                        None
                    }
                } else {
                    None
                }
            } else if i == n - 2 && parts[n - 1].len() == 0 {
                if n - 2 <= 7 && all_valid_groups(parts, 0, n - 2) {
                    Some(assemble_vals(group_vals(parts.subrange(0, n - 2)), Seq::<u16>::empty()))
                } else {
                    None
                }
            } else if i <= n - 2 && n <= 8 && all_valid_groups(parts, 0, i) && all_valid_groups(
                parts,
                i + 1,
                n,
            ) {
                Some(
                    assemble_vals(
                        group_vals(parts.subrange(0, i)),
                        group_vals(parts.subrange(i + 1, n)),
                    ),
                )
            } else {
                None
            }
        },
    }
}

/// The minimal lowercase hex digit string of a non-negative value.
pub open spec fn spec_hex(n: int) -> Seq<char>
    decreases n,
{
    if n < 16 {
        seq![hex_digit_char(n)]
    } else {
        spec_hex(n / 16).push(hex_digit_char(n % 16))
    }
}

/// The length of the run of zero groups starting at `i`.
pub open spec fn run_len(g: Seq<u16>, i: int) -> int
    decreases g.len() - i,
{
    if i < 0 || i >= g.len() || g[i] != 0 {
        0
    } else {
        1 + run_len(g, i + 1)
    }
}

/// The start and length of the leftmost longest run of zero groups at
/// or after `i`.
pub open spec fn best_from(g: Seq<u16>, i: int) -> (int, int)
    decreases g.len() - i,
{
    if i >= g.len() {
        (g.len() as int, 0)
    } else {
        let r = best_from(g, i + 1);
        let l = run_len(g, i);
        if l >= r.1 {
            (i, l)
        } else {
            r
        }
    }
}

/// An IPv4-mapped address: the first five groups zero and the sixth
/// `ffff`.
pub open spec fn is_mapped(g: Seq<u16>) -> bool {
    g.len() == 8 && g[0] == 0 && g[1] == 0 && g[2] == 0 && g[3] == 0 && g[4] == 0 && g[5] == 0xffff
}

/// The IPv4 address held in the last two groups of a mapped address.
pub open spec fn mapped_ipv4(g: Seq<u16>) -> Ipv4 {
    Ipv4 {
        a: (g[6] / 256) as u8,
        b: (g[6] % 256) as u8,
        c: (g[7] / 256) as u8,
        d: (g[7] % 256) as u8,
    }
}

/// Hex groups joined with single colons.
pub open spec fn hex_join(gs: Seq<u16>) -> Seq<char> {
    spec_join(gs.map_values(|v: u16| spec_hex(v as int)), ':')
}

/// The canonical form of an address: mapped addresses in mixed
/// notation, otherwise the leftmost longest run of two or more zero
/// groups compressed to `::`, all digits lowercase and minimal.
pub open spec fn spec_ipv6_str(g: Seq<u16>) -> Seq<char>
    recommends
        g.len() == 8,
{
    if is_mapped(g) {
        seq![':', ':', 'f', 'f', 'f', 'f', ':'] + spec_ipv4_str(mapped_ipv4(g))
    } else {
        let bs = best_from(g, 0).0;
        let bl = best_from(g, 0).1;
        if bl >= 2 {
            hex_join(g.subrange(0, bs)) + seq![':', ':'] + hex_join(
                g.subrange(bs + bl, g.len() as int),
            )
        } else {
            hex_join(g)
        }
    }
}

/// A zero run lies within bounds and holds only zero groups.
pub proof fn lemma_run_len_props(g: Seq<u16>, i: int)
    requires
        0 <= i <= g.len(),
    ensures
        0 <= run_len(g, i) <= g.len() - i,
        forall|k: int| i <= k < i + run_len(g, i) ==> g[k] == 0,
    decreases g.len() - i,
{
    if i < g.len() && g[i] == 0 {
        lemma_run_len_props(g, i + 1);
    }
}

/// The chosen run starts in bounds, has its stated length, and stays
/// within the groups.
pub proof fn lemma_best_from_props(g: Seq<u16>, i: int)
    requires
        0 <= i <= g.len(),
    ensures
        i <= best_from(g, i).0 <= g.len(),
        best_from(g, i).1 == run_len(g, best_from(g, i).0),
        best_from(g, i).0 + best_from(g, i).1 <= g.len(),
    decreases g.len() - i,
{
    if i >= g.len() {
        assert(run_len(g, g.len() as int) == 0);
    } else {
        lemma_best_from_props(g, i + 1);
        lemma_run_len_props(g, i);
    }
}

/// The canonical hex string of a group value is a valid group and
/// evaluates back to the value.
pub proof fn lemma_hex_inverse(n: int)
    requires
        0 <= n < 0x10000,
    ensures
        spec_hex(n).len() >= 1,
        spec_hex(n).len() <= 4,
        n < 0x10 ==> spec_hex(n).len() == 1,
        n < 0x100 ==> spec_hex(n).len() <= 2,
        n < 0x1000 ==> spec_hex(n).len() <= 3,
        forall|i: int| 0 <= i < spec_hex(n).len() ==> is_hex_digit(spec_hex(n)[i]),
        hex_group_val(spec_hex(n)) == n,
        is_valid_group(spec_hex(n)),
    decreases n,
{
    if n < 16 {
        assert(spec_hex(n) == seq![hex_digit_char(n)]);
        assert(spec_hex(n).drop_last() =~= Seq::<char>::empty());
        assert(hex_group_val(spec_hex(n)) == hex_group_val(Seq::<char>::empty()) * 16
            + hex_digit_val(hex_digit_char(n)));
    } else {
        lemma_hex_inverse(n / 16);
        let s = spec_hex(n);
        assert(s == spec_hex(n / 16).push(hex_digit_char(n % 16)));
        assert(s.drop_last() =~= spec_hex(n / 16));
        assert(hex_group_val(s) == hex_group_val(spec_hex(n / 16)) * 16 + hex_digit_val(
            hex_digit_char(n % 16),
        ));
        assert(n / 16 < 0x1000);
        assert(n < 0x100 ==> n / 16 < 0x10);
        assert(n < 0x1000 ==> n / 16 < 0x100);
    }
}

/// Every character of a joined group list is a hex digit or a colon.
pub proof fn lemma_hex_join_chars(gs: Seq<u16>)
    ensures
        forall|i: int|
            0 <= i < hex_join(gs).len() ==> is_hex_digit(#[trigger] hex_join(gs)[i]) || hex_join(
                gs,
            )[i] == ':',
    decreases gs.len(),
{
    let parts = gs.map_values(|v: u16| spec_hex(v as int));
    if gs.len() == 0 {
    } else if gs.len() == 1 {
        lemma_hex_inverse(gs[0] as int);
        assert(hex_join(gs) == parts[0]);
    } else {
        lemma_hex_join_chars(gs.drop_last());
        lemma_hex_inverse(gs.last() as int);
        assert(gs.drop_last().map_values(|v: u16| spec_hex(v as int)) =~= parts.drop_last());
        assert(hex_join(gs) == spec_join(parts.drop_last(), ':').push(':') + parts.last());
        assert(parts.last() == spec_hex(gs.last() as int));
        let hj = hex_join(gs);
        let front = spec_join(parts.drop_last(), ':');
        assert forall|i: int| 0 <= i < hj.len() implies is_hex_digit(#[trigger] hj[i]) || hj[i]
            == ':' by {
            if i < front.len() {
                assert(hj[i] == hex_join(gs.drop_last())[i]);
            } else if i == front.len() {
                assert(hj[i] == ':');
            } else {
                assert(hj[i] == parts.last()[i - front.len() - 1]);
            }
        }
    }
}

/// Splitting a joined group list on colons recovers the group strings,
/// whose values are the groups.
pub proof fn lemma_hex_join_split(gs: Seq<u16>)
    requires
        gs.len() >= 1,
    ensures
        spec_split(hex_join(gs), ':') == gs.map_values(|v: u16| spec_hex(v as int)),
        group_vals(gs.map_values(|v: u16| spec_hex(v as int))) == gs,
        all_valid_groups(gs.map_values(|v: u16| spec_hex(v as int)), 0, gs.len() as int),
{
    let parts = gs.map_values(|v: u16| spec_hex(v as int));
    assert forall|j: int| 0 <= j < parts.len() implies is_valid_group(#[trigger] parts[j]) by {
        lemma_hex_inverse(gs[j] as int);
    }
    assert forall|i: int, j: int|
        0 <= i < parts.len() && 0 <= j < parts[i].len() implies parts[i][j] != ':' by {
        assert(is_valid_group(parts[i]));
        assert(is_hex_digit(parts[i][j]));
    }
    lemma_split_join(parts, ':');
    assert(group_vals(parts) =~= gs) by {
        assert forall|j: int| 0 <= j < parts.len() implies group_vals(parts)[j] == gs[j] by {
            lemma_hex_inverse(gs[j] as int);
        }
    }
}

/// Locates the first empty part, as `first_empty_from` does.
proof fn lemma_first_empty(parts: Seq<Seq<char>>, j: int, i: int)
    requires
        0 <= j <= i <= parts.len(),
        forall|k: int| j <= k < i ==> #[trigger] parts[k].len() != 0,
        i < parts.len() ==> parts[i].len() == 0,
    ensures
        first_empty_from(parts, j) == if i < parts.len() {
            Some(i)
        } else {
            None::<int>
        },
    decreases i - j,
{
    if j < i {
        lemma_first_empty(parts, j + 1, i);
    }
}

/// Appends the minimal lowercase hex form of `v`.
pub fn push_hex(s: &mut String, v: u16)
    ensures
        final(s)@ == old(s)@ + spec_hex(v as int),
{
    let d0: u16 = v % 16;
    let v1: u16 = v / 16;
    let d1: u16 = v1 % 16;
    let v2: u16 = v1 / 16;
    let d2: u16 = v2 % 16;
    let v3: u16 = v2 / 16;
    proof {
        assert(v1 == v as int / 16);
        assert(v2 == v as int / 16 / 16);
        assert(v3 == v as int / 16 / 16 / 16);
    }
    if v >= 0x1000 {
        push_char(s, hex_digit_exec(v3));
        push_char(s, hex_digit_exec(d2));
        push_char(s, hex_digit_exec(d1));
        push_char(s, hex_digit_exec(d0));
        proof {
            assert(spec_hex(v2 as int) == spec_hex(v2 as int / 16).push(
                hex_digit_char(v2 as int % 16),
            ));
            assert(spec_hex(v3 as int) == seq![hex_digit_char(v3 as int)]);
            assert(spec_hex(v1 as int) == spec_hex(v1 as int / 16).push(
                hex_digit_char(v1 as int % 16),
            ));
            assert(s@ =~= old(s)@ + spec_hex(v as int));
        }
    } else if v >= 0x100 {
        push_char(s, hex_digit_exec(v2));
        push_char(s, hex_digit_exec(d1));
        push_char(s, hex_digit_exec(d0));
        proof {
            assert(spec_hex(v2 as int) == seq![hex_digit_char(v2 as int)]);
            assert(spec_hex(v1 as int) == spec_hex(v1 as int / 16).push(
                hex_digit_char(v1 as int % 16),
            ));
            assert(s@ =~= old(s)@ + spec_hex(v as int));
        }
    } else if v >= 0x10 {
        push_char(s, hex_digit_exec(v1));
        push_char(s, hex_digit_exec(d0));
        proof {
            assert(spec_hex(v1 as int) == seq![hex_digit_char(v1 as int)]);
            assert(s@ =~= old(s)@ + spec_hex(v as int));
        }
    } else {
        push_char(s, hex_digit_exec(v));
        proof {
            assert(s@ =~= old(s)@ + spec_hex(v as int));
        }
    }
}

/// Appends the groups in `[lo, hi)` in hex, joined with colons.
fn push_hex_join(s: &mut String, g: &Vec<u16>, lo: usize, hi: usize)
    requires
        lo <= hi <= g@.len(),
    ensures
        final(s)@ == old(s)@ + hex_join(g@.subrange(lo as int, hi as int)),
{
    let mut k = lo;
    while k < hi
        invariant
            lo <= k <= hi <= g@.len(),
            s@ == old(s)@ + hex_join(g@.subrange(lo as int, k as int)),
        decreases hi - k,
    {
        if k > lo {
            push_char(s, ':');
        }
        push_hex(s, g[k]);
        proof {
            let prev = g@.subrange(lo as int, k as int).map_values(|v: u16| spec_hex(v as int));
            let now = g@.subrange(lo as int, k + 1).map_values(|v: u16| spec_hex(v as int));
            assert(now.drop_last() =~= prev);
            assert(now.last() == spec_hex(g@[k as int] as int));
            if k == lo {
                assert(hex_join(g@.subrange(lo as int, k + 1)) == now[0]);
                assert(s@ =~= old(s)@ + hex_join(g@.subrange(lo as int, k + 1)));
            } else {
                assert(hex_join(g@.subrange(lo as int, k + 1)) == spec_join(prev, ':').push(':')
                    + now.last());
                assert(s@ =~= old(s)@ + hex_join(g@.subrange(lo as int, k + 1)));
            }
        }
        k += 1;
    }
    proof {
        if lo == hi {
            assert(g@.subrange(lo as int, hi as int).map_values(|v: u16| spec_hex(v as int))
                =~= Seq::<Seq<char>>::empty());
            assert(s@ =~= old(s)@ + hex_join(g@.subrange(lo as int, hi as int)));
        }
    }
}

/// The start and length of the leftmost longest zero run.
fn best_zero_run(g: &Vec<u16>) -> (r: (usize, usize))
    requires
        g@.len() == 8,
    ensures
        r.0 == best_from(g@, 0).0,
        r.1 == best_from(g@, 0).1,
{
    let mut bs: usize = 8;
    let mut bl: usize = 0;
    let mut rl: usize = 0;
    let mut i: usize = 8;
    while i > 0
        invariant
            i <= 8,
            g@.len() == 8,
            rl == run_len(g@, i as int),
            bs == best_from(g@, i as int).0,
            bl == best_from(g@, i as int).1,
            rl <= 8 - i,
            bl <= 8,
        decreases i,
    {
        proof {
            lemma_run_len_props(g@, i - 1);
            lemma_best_from_props(g@, i as int);
        }
        i -= 1;
        if g[i] == 0 {
            rl = rl + 1;
        } else {
            rl = 0;
        }
        if rl >= bl {
            bs = i;
            bl = rl;
        }
    }
    (bs, bl)
}

/// The canonical string form of an address, as the update protocol
/// reports it.
pub fn ipv6_string(ip: &Ipv6) -> (r: String)
    requires
        ip.wf(),
    ensures
        r@ == spec_ipv6_str(ip.groups@),
{
    let g = &ip.groups;
    if g[0] == 0 && g[1] == 0 && g[2] == 0 && g[3] == 0 && g[4] == 0 && g[5] == 0xffff {
        let mut s = String::new();
        push_char(&mut s, ':');
        push_char(&mut s, ':');
        push_char(&mut s, 'f');
        push_char(&mut s, 'f');
        push_char(&mut s, 'f');
        push_char(&mut s, 'f');
        push_char(&mut s, ':');
        push_dec(&mut s, (g[6] / 256) as u8);
        push_char(&mut s, '.');
        push_dec(&mut s, (g[6] % 256) as u8);
        push_char(&mut s, '.');
        push_dec(&mut s, (g[7] / 256) as u8);
        push_char(&mut s, '.');
        push_dec(&mut s, (g[7] % 256) as u8);
        proof {
            assert(s@ =~= spec_ipv6_str(ip.groups@));
        }
        s
    } else {
        let run = best_zero_run(g);
        let bs = run.0;
        let bl = run.1;
        proof {
            lemma_best_from_props(g@, 0);
        }
        let mut s = String::new();
        if bl >= 2 {
            push_hex_join(&mut s, g, 0, bs);
            push_char(&mut s, ':');
            push_char(&mut s, ':');
            push_hex_join(&mut s, g, bs + bl, 8);
            proof {
                assert(s@ =~= spec_ipv6_str(ip.groups@));
            }
        } else {
            push_hex_join(&mut s, g, 0, 8);
            proof {
                assert(g@.subrange(0, 8) =~= g@);
                assert(s@ =~= spec_ipv6_str(ip.groups@));
            }
        }
        s
    }
}

/// Parses one group: one to four hex digits.
fn parse_group(p: &str) -> (r: Option<u16>)
    ensures
        match r {
            Some(v) => is_valid_group(p@) && v == hex_group_val(p@),
            None => !is_valid_group(p@),
        },
{
    let n = p.unicode_len();
    if n < 1 || n > 4 {
        return None;
    }
    let mut val: u32 = 0;
    let mut i: usize = 0;
    while i < n
        invariant
            i <= n,
            n == p@.len(),
            1 <= n <= 4,
            forall|j: int| 0 <= j < i ==> is_hex_digit(p@[j]),
            val == hex_group_val(p@.take(i as int)),
            i == 0 ==> val == 0,
            i == 1 ==> val <= 0xf,
            i == 2 ==> val <= 0xff,
            i == 3 ==> val <= 0xfff,
            i == 4 ==> val <= 0xffff,
        decreases n - i,
    {
        let c = p.get_char(i);
        if !is_hex_digit_exec(c) {
            return None;
        }
        let d = hex_digit_val_exec(c);
        proof {
            assert(p@.take(i + 1).drop_last() =~= p@.take(i as int));
            assert(p@.take(i + 1).last() == p@[i as int]);
        }
        val = val * 16 + (d as u32);
        i += 1;
    }
    proof {
        assert(p@.take(n as int) =~= p@);
    }
    Some(val as u16)
}

/// Parses the parts in `[lo, hi)` as groups.
fn parse_groups_range(parts: &Vec<String>, lo: usize, hi: usize) -> (r: Option<Vec<u16>>)
    requires
        lo <= hi <= parts@.len(),
    ensures
        match r {
            Some(v) => all_valid_groups(parts@.map_values(|p: String| p@), lo as int, hi as int)
                && v@ == group_vals(
                parts@.map_values(|p: String| p@).subrange(lo as int, hi as int),
            ),
            None => !all_valid_groups(parts@.map_values(|p: String| p@), lo as int, hi as int),
        },
{
    let ghost pseq = parts@.map_values(|p: String| p@);
    let mut out: Vec<u16> = Vec::new();
    let mut k = lo;
    while k < hi
        invariant
            lo <= k <= hi <= parts@.len(),
            pseq == parts@.map_values(|p: String| p@),
            all_valid_groups(pseq, lo as int, k as int),
            out@ == group_vals(pseq.subrange(lo as int, k as int)),
        decreases hi - k,
    {
        match parse_group(parts[k].as_str()) {
            Some(v) => {
                out.push(v);
                proof {
                    assert(pseq.subrange(lo as int, k + 1).drop_last() =~= pseq.subrange(
                        lo as int,
                        k as int,
                    ));
                    assert(out@ =~= group_vals(pseq.subrange(lo as int, k + 1)));
                }
            },
            None => {
                proof {
                    assert(pseq[k as int] == parts@[k as int]@);
                    assert(!is_valid_group(pseq[k as int]));
                }
                return None;
            },
        }
        k += 1;
    }
    Some(out)
}

/// Builds the eight groups from head groups, elided zeros and tail
/// groups.
fn assemble(head: &Vec<u16>, tail: &Vec<u16>) -> (r: Vec<u16>)
    requires
        head@.len() + tail@.len() <= 8,
    ensures
        r@ == assemble_vals(head@, tail@),
        r@.len() == 8,
{
    let mut out: Vec<u16> = Vec::new();
    let mut k: usize = 0;
    while k < head.len()
        invariant
            k <= head@.len(),
            out@ == head@.subrange(0, k as int),
        decreases head@.len() - k,
    {
        out.push(head[k]);
        proof {
            assert(out@ =~= head@.subrange(0, k + 1));
        }
        k += 1;
    }
    proof {
        assert(out@ =~= head@);
    }
    let zeros: usize = 8 - head.len() - tail.len();
    let mut z: usize = 0;
    while z < zeros
        invariant
            z <= zeros,
            zeros == 8 - head@.len() - tail@.len(),
            out@ == head@ + zero_groups(z as int),
        decreases zeros - z,
    {
        out.push(0);
        proof {
            assert(out@ =~= head@ + zero_groups(z + 1));
        }
        z += 1;
    }
    let mut t: usize = 0;
    while t < tail.len()
        invariant
            t <= tail@.len(),
            zeros == 8 - head@.len() - tail@.len(),
            out@ == head@ + zero_groups(zeros as int) + tail@.subrange(0, t as int),
        decreases tail@.len() - t,
    {
        out.push(tail[t]);
        proof {
            assert(out@ =~= head@ + zero_groups(zeros as int) + tail@.subrange(0, t + 1));
        }
        t += 1;
    }
    proof {
        assert(out@ =~= assemble_vals(head@, tail@));
    }
    out
}

/// Parsing the canonical form of any address that is not IPv4-mapped
/// yields that address. Mapped addresses are excluded: their canonical
/// form uses the dotted mixed notation, which the update protocol
/// routes to the IPv4 parser.
#[verifier::rlimit(100)]
pub proof fn lemma_ipv6_roundtrip(g: Seq<u16>)
    requires
        g.len() == 8,
        !is_mapped(g),
    ensures
        spec_parse_ipv6(spec_ipv6_str(g)) == Some(g),
{
    lemma_best_from_props(g, 0);
    let bs = best_from(g, 0).0;
    let bl = best_from(g, 0).1;
    let full = spec_ipv6_str(g);
    if bl >= 2 {
        lemma_run_len_props(g, bs);
        let head = g.subrange(0, bs);
        let tail = g.subrange(bs + bl, 8);
        let a = bs;
        let b = 8 - bs - bl;
        let x = hex_join(head);
        let y = hex_join(tail);
        assert(full == x + seq![':', ':'] + y);
        let w = seq![':'] + y;
        assert(full =~= x + seq![':'] + w);
        lemma_split_concat(x, w, ':');
        assert(w =~= Seq::<char>::empty() + seq![':'] + y);
        lemma_split_concat(Seq::<char>::empty(), y, ':');
        assert(spec_split(Seq::<char>::empty(), ':') =~~= seq![Seq::<char>::empty()]);
        let p = spec_split(full, ':');
        assert(p =~= spec_split(x, ':') + seq![Seq::<char>::empty()] + spec_split(y, ':'));
        let hparts = head.map_values(|v: u16| spec_hex(v as int));
        let tparts = tail.map_values(|v: u16| spec_hex(v as int));
        if a >= 1 {
            lemma_hex_join_split(head);
        } else {
            assert(head =~= Seq::<u16>::empty());
            assert(hparts =~~= Seq::<Seq<char>>::empty());
            assert(x =~= Seq::<char>::empty());
        }
        if b >= 1 {
            lemma_hex_join_split(tail);
        } else {
            assert(tail =~= Seq::<u16>::empty());
            assert(tparts =~~= Seq::<Seq<char>>::empty());
            assert(y =~= Seq::<char>::empty());
        }
        let n = p.len() as int;
        if a == 0 && b == 0 {
            assert(p =~~= seq![
                Seq::<char>::empty(),
                Seq::<char>::empty(),
                Seq::<char>::empty(),
            ]);
            lemma_first_empty(p, 0, 0);
            assert(spec_parse_ipv6(full) == Some(zero_groups(8)));
            assert(zero_groups(8) =~= g);
        } else if a == 0 {
            assert(p =~= seq![Seq::<char>::empty(), Seq::<char>::empty()] + tparts);
            assert(p[0].len() == 0);
            lemma_first_empty(p, 0, 0);
            assert(n == b + 2);
            assert(p[1].len() == 0);
            assert(forall|j: int| 2 <= j < n ==> p[j] == tparts[j - 2]);
            assert(!(n == 3 && p[2].len() == 0));
            assert(b <= 6);
            assert(all_valid_groups(p, 2, n));
            assert(p.subrange(2, n) =~~= tparts);
            assert(group_vals(tparts) == tail);
            let vals = assemble_vals(Seq::<u16>::empty(), group_vals(p.subrange(2, n)));
            assert(spec_parse_ipv6(full) == Some(vals));
            assert(vals =~= g);
        } else if b == 0 {
            assert(p =~= hparts + seq![Seq::<char>::empty(), Seq::<char>::empty()]);
            assert(n == a + 2);
            assert(forall|j: int| 0 <= j < a ==> p[j] == hparts[j]);
            assert forall|j: int| 0 <= j < a implies (#[trigger] p[j]).len() != 0 by {
                assert(is_valid_group(hparts[j]));
            }
            assert(p[a].len() == 0);
            lemma_first_empty(p, 0, a);
            assert(p[n - 1].len() == 0);
            assert(a <= 6);
            assert(all_valid_groups(p, 0, n - 2));
            assert(p.subrange(0, n - 2) =~~= hparts);
            assert(group_vals(hparts) == head);
            let vals = assemble_vals(group_vals(p.subrange(0, n - 2)), Seq::<u16>::empty());
            assert(spec_parse_ipv6(full) == Some(vals));
            assert(vals =~= g);
        } else {
            assert(p =~= hparts + seq![Seq::<char>::empty()] + tparts);
            assert(n == a + b + 1);
            assert(forall|j: int| 0 <= j < a ==> p[j] == hparts[j]);
            assert(forall|j: int| a + 1 <= j < n ==> p[j] == tparts[j - a - 1]);
            assert forall|j: int| 0 <= j < a implies (#[trigger] p[j]).len() != 0 by {
                assert(is_valid_group(hparts[j]));
            }
            assert(p[a].len() == 0);
            lemma_first_empty(p, 0, a);
            assert(p[n - 1] == tparts[b - 1]);
            assert(is_valid_group(tparts[b - 1]));
            assert(p[n - 1].len() != 0);
            assert(a + b <= 6);
            assert(all_valid_groups(p, 0, a));
            assert(all_valid_groups(p, a + 1, n));
            assert(p.subrange(0, a) =~~= hparts);
            assert(p.subrange(a + 1, n) =~~= tparts);
            assert(group_vals(hparts) == head);
            assert(group_vals(tparts) == tail);
            let vals = assemble_vals(group_vals(p.subrange(0, a)), group_vals(p.subrange(a + 1, n)));
            assert(spec_parse_ipv6(full) == Some(vals));
            assert(vals =~= g);
        }
    } else {
        assert(full == hex_join(g));
        lemma_hex_join_split(g);
        let parts = g.map_values(|v: u16| spec_hex(v as int));
        let p = spec_split(full, ':');
        assert(p == parts);
        assert forall|j: int| 0 <= j < 8 implies (#[trigger] p[j]).len() != 0 by {
            assert(is_valid_group(parts[j]));
        }
        lemma_first_empty(p, 0, 8);
        assert(spec_parse_ipv6(full) == Some(group_vals(parts)));
        assert(group_vals(parts) == g);
    }
}

/// A found first empty part lies within the part list.
proof fn lemma_first_empty_range(parts: Seq<Seq<char>>, j: int)
    requires
        0 <= j,
    ensures
        first_empty_from(parts, j).is_some() ==> j <= first_empty_from(parts, j).unwrap()
            < parts.len(),
    decreases parts.len() - j,
{
    if j < parts.len() && parts[j].len() != 0 {
        lemma_first_empty_range(parts, j + 1);
    }
}

/// A parsed literal always yields exactly eight groups.
pub proof fn lemma_parse_ipv6_groups_len(s: Seq<char>)
    requires
        spec_parse_ipv6(s).is_some(),
    ensures
        spec_parse_ipv6(s).unwrap().len() == 8,
{
    let parts = spec_split(s, ':');
    let n = parts.len() as int;
    match first_empty_from(parts, 0) {
        None => {
            assert(spec_parse_ipv6(s).unwrap() == group_vals(parts));
        },
        Some(i) => {
            lemma_first_empty_range(parts, 0);
            if i == 0 {
                if n == 3 && parts[2].len() == 0 {
                    assert(zero_groups(8).len() == 8);
                } else {
                    let tail = group_vals(parts.subrange(2, n));
                    assert(tail.len() == n - 2);
                    assert(assemble_vals(Seq::<u16>::empty(), tail).len() == 8);
                }
            } else if i == n - 2 && parts[n - 1].len() == 0 {
                let head = group_vals(parts.subrange(0, n - 2));
                assert(assemble_vals(head, Seq::<u16>::empty()).len() == 8);
            } else {
                if !(i <= n - 2 && n <= 8) {
                    assert(spec_parse_ipv6(s).is_none());
                }
                let head = group_vals(parts.subrange(0, i));
                let tail = group_vals(parts.subrange(i + 1, n));
                assert(head.len() == i);
                assert(tail.len() == n - i - 1);
                assert(assemble_vals(head, tail).len() == 8);
            }
        },
    }
}

/// The canonical form of an address that is not IPv4-mapped contains
/// a colon and no dot.
pub proof fn lemma_ipv6_str_chars(g: Seq<u16>)
    requires
        g.len() == 8,
        !is_mapped(g),
    ensures
        spec_ipv6_str(g).contains(':'),
        !spec_ipv6_str(g).contains('.'),
{
    lemma_best_from_props(g, 0);
    let bs = best_from(g, 0).0;
    let bl = best_from(g, 0).1;
    let full = spec_ipv6_str(g);
    if bl >= 2 {
        let head = g.subrange(0, bs);
        let tail = g.subrange(bs + bl, 8);
        let x = hex_join(head);
        let y = hex_join(tail);
        assert(full == x + seq![':', ':'] + y);
        lemma_hex_join_chars(head);
        lemma_hex_join_chars(tail);
        assert(full[x.len() as int] == ':');
        assert(full.contains(':'));
        assert forall|i: int| 0 <= i < full.len() implies full[i] != '.' by {
            if i < x.len() {
                assert(full[i] == x[i]);
            } else if i < x.len() + 2 {
                assert(full[i] == ':');
            } else {
                assert(full[i] == y[i - x.len() - 2]);
            }
        }
    } else {
        assert(full == hex_join(g));
        lemma_hex_join_chars(g);
        let parts = g.map_values(|v: u16| spec_hex(v as int));
        assert(full == spec_join(parts.drop_last(), ':').push(':') + parts.last());
        assert(full[spec_join(parts.drop_last(), ':').len() as int] == ':');
        assert(full.contains(':'));
        assert forall|i: int| 0 <= i < full.len() implies full[i] != '.' by {
            assert(is_hex_digit(full[i]) || full[i] == ':');
        }
    }
}

/// The index of the first empty part, or the part count when none is
/// empty.
fn find_first_empty(parts: &Vec<String>) -> (r: usize)
    ensures
        r <= parts@.len(),
        r < parts@.len() ==> parts@[r as int]@.len() == 0,
        forall|j: int| 0 <= j < r ==> (#[trigger] parts@[j]@).len() != 0,
{
    let mut k: usize = 0;
    while k < parts.len()
        invariant
            k <= parts@.len(),
            forall|j: int| 0 <= j < k ==> (#[trigger] parts@[j]@).len() != 0,
        decreases parts@.len() - k,
    {
        if parts[k].as_str().is_empty() {
            return k;
        }
        k += 1;
    }
    parts.len()
}

/// Strict parse of a hex-groups IPv6 literal.
pub fn parse_ipv6(s: &str) -> (r: Option<Ipv6>)
    ensures
        match r {
            Some(v) => v.wf() && spec_parse_ipv6(s@) == Some(v.groups@),
            None => spec_parse_ipv6(s@) == None::<Seq<u16>>,
        },
{
    let parts = split_char(s, ':');
    let ghost pseq = parts@.map_values(|p: String| p@);
    let n = parts.len();
    let first_empty = find_first_empty(&parts);
    proof {
        lemma_first_empty(pseq, 0, first_empty as int);
    }
    if first_empty == n {
        // no `::`: exactly eight groups
        if n != 8 {
            return None;
        }
        match parse_groups_range(&parts, 0, 8) {
            Some(v) => {
                proof {
                    assert(pseq.subrange(0, 8) =~= pseq);
                }
                Some(Ipv6 { groups: v })
            },
            None => None,
        }
    } else if first_empty == 0 {
        // leading `::`
        if n < 3 || !parts[1].as_str().is_empty() {
            return None;
        }
        if n == 3 && parts[2].as_str().is_empty() {
            let zeros: Vec<u16> = vec![0, 0, 0, 0, 0, 0, 0, 0];
            proof {
                assert(zeros@ =~= zero_groups(8));
            }
            return Some(Ipv6 { groups: zeros });
        }
        if n - 2 > 7 {
            return None;
        }
        match parse_groups_range(&parts, 2, n) {
            Some(tail) => {
                let head: Vec<u16> = Vec::new();
                let out = assemble(&head, &tail);
                proof {
                    assert(head@ =~= Seq::<u16>::empty());
                }
                Some(Ipv6 { groups: out })
            },
            None => None,
        }
    } else if first_empty == n - 2 && parts[n - 1].as_str().is_empty() {
        // trailing `::`
        if n - 2 > 7 {
            return None;
        }
        match parse_groups_range(&parts, 0, n - 2) {
            Some(head) => {
                let tail: Vec<u16> = Vec::new();
                let out = assemble(&head, &tail);
                proof {
                    assert(tail@ =~= Seq::<u16>::empty());
                }
                Some(Ipv6 { groups: out })
            },
            None => None,
        }
    } else {
        // `::` strictly inside the groups
        if first_empty > n - 2 || n > 8 {
            return None;
        }
        let head = match parse_groups_range(&parts, 0, first_empty) {
            Some(h) => h,
            None => { return None },
        };
        let tail = match parse_groups_range(&parts, first_empty + 1, n) {
            Some(t) => t,
            None => { return None },
        };
        let out = assemble(&head, &tail);
        Some(Ipv6 { groups: out })
    }
}

} // verus!
