//! Rendering the sorted table as `{name=min/mean/max, ...}\n`.
//!
//! Every statistic is printed with exactly one fractional digit, straight
//! from its tenths representation; no floating point is involved, so a
//! mean that rounds to zero is printed as `0.0`, never `-0.0`.

use vstd::prelude::*;

use crate::parse::parse_temp;
use crate::stat::GStat;
use crate::stat::g_wf;
use crate::stat::lemma_div_ge;
use crate::stat::lemma_div_le;
use crate::stat::mean_of;
use crate::table::Table;

verus! {

/// The byte of a single decimal digit.
pub open spec fn digit_byte(d: int) -> u8
    recommends
        0 <= d <= 9,
{
    (48 + d) as u8
}

/// The canonical text of a temperature in tenths: optional sign, one or
/// two integer digits, a point, one fractional digit.
pub open spec fn render_tenths(t: int) -> Seq<u8>
    recommends
        -999 <= t <= 999,
{
    let m = if t < 0 {
        -t
    } else {
        t
    };
    let ip = m / 10;
    let fr = m % 10;
    let sign: Seq<u8> = if t < 0 {
        seq![45u8]
    } else {
        Seq::empty()
    };
    let ipd: Seq<u8> = if ip >= 10 {
        seq![digit_byte(ip / 10), digit_byte(ip % 10)]
    } else {
        seq![digit_byte(ip)]
    };
    sign + ipd + seq![46u8, digit_byte(fr)]
}

/// One report entry: `name=min/mean/max`.
pub open spec fn render_entry(name: Seq<u8>, g: GStat) -> Seq<u8> {
    name + seq![61u8] + render_tenths(g.min) + seq![47u8] + render_tenths(mean_of(g)) + seq![47u8]
        + render_tenths(g.max)
}

/// The first `n` entries joined by `, `.
pub open spec fn render_body(t: Table, n: int) -> Seq<u8>
    decreases n,
{
    if n <= 0 {
        Seq::empty()
    } else if n == 1 {
        render_entry(t.key_at(0), t.stat_at(0))
    } else {
        render_body(t, n - 1) + seq![44u8, 32u8] + render_entry(t.key_at(n - 1), t.stat_at(n - 1))
    }
}

/// The whole report: the entries in table order, braced, ending in a
/// newline.
pub open spec fn spec_report(t: Table) -> Seq<u8> {
    seq![123u8] + render_body(t, t.len()) + seq![125u8, 10u8]
}

/// The decoder reads back exactly the value that was rendered: the
/// canonical text of every representable temperature decodes to it.
pub proof fn lemma_render_parse_round_trip(t: int)
    requires
        -999 <= t <= 999,
    ensures
        parse_temp(render_tenths(t)) == Some(t),
{
    let s = render_tenths(t);
    let m = if t < 0 {
        -t
    } else {
        t
    };
    let ip = m / 10;
    let fr = m % 10;
    vstd::arithmetic::div_mod::lemma_fundamental_div_mod(m, 10);
    vstd::arithmetic::div_mod::lemma_mod_bound(m, 10);
    lemma_div_ge(m, 10, 0);
    lemma_div_le(m, 10, 99);
    if ip >= 10 {
        vstd::arithmetic::div_mod::lemma_fundamental_div_mod(ip, 10);
        vstd::arithmetic::div_mod::lemma_mod_bound(ip, 10);
        lemma_div_ge(ip, 10, 1);
        lemma_div_le(ip, 10, 9);
        if t < 0 {
            assert(s =~= seq![
                45u8,
                digit_byte(ip / 10),
                digit_byte(ip % 10),
                46u8,
                digit_byte(fr),
            ]);
            assert(s.drop_first() =~= seq![
                digit_byte(ip / 10),
                digit_byte(ip % 10),
                46u8,
                digit_byte(fr),
            ]);
        } else {
            assert(s =~= seq![digit_byte(ip / 10), digit_byte(ip % 10), 46u8, digit_byte(fr)]);
        }
    } else {
        if t < 0 {
            assert(s =~= seq![45u8, digit_byte(ip), 46u8, digit_byte(fr)]);
            assert(s.drop_first() =~= seq![digit_byte(ip), 46u8, digit_byte(fr)]);
        } else {
            assert(s =~= seq![digit_byte(ip), 46u8, digit_byte(fr)]);
        }
    }
}

/// Append the canonical text of `t` to `out`.
fn push_tenths(out: &mut Vec<u8>, t: i16)
    requires
        -999 <= t <= 999,
    ensures
        final(out)@ == old(out)@ + render_tenths(t as int),
{
    let m: u16 = if t < 0 {
        (-t) as u16
    } else {
        t as u16
    };
    if t < 0 {
        out.push(45);
    }
    let ip = m / 10;
    let fr = m % 10;
    if ip >= 10 {
        out.push(48 + (ip / 10) as u8);
        out.push(48 + (ip % 10) as u8);
    } else {
        out.push(48 + ip as u8);
    }
    out.push(46);
    out.push(48 + fr as u8);
    proof {
        assert(final(out)@ =~= old(out)@ + render_tenths(t as int));
    }
}

/// Render the table, in its own entry order, as the full report.
#[verifier::rlimit(60)]
pub fn render_report(t: &Table) -> (out: Vec<u8>)
    requires
        t.wf(),
    ensures
        out@ == spec_report(*t),
{
    let mut out: Vec<u8> = Vec::new();
    out.push(123);
    let n = t.names.len();
    proof {
        assert(out@ =~= seq![123u8] + render_body(*t, 0));
    }
    let mut i: usize = 0;
    while i < n
        invariant
            0 <= i <= n,
            n == t.names@.len(),
            t.wf(),
            out@ == seq![123u8] + render_body(*t, i as int),
        decreases n - i,
    {
        if i > 0 {
            out.push(44);
            out.push(32);
        }
        let ghost out_pre = out@;
        let ghost gname = t.names@[i as int]@;
        let name = &t.names[i];
        let name_len = name.len();
        let mut j: usize = 0;
        proof {
            assert(out@ =~= out_pre + gname.subrange(0, 0));
        }
        while j < name_len
            invariant
                0 <= j <= name_len,
                name_len == gname.len(),
                gname == t.names@[i as int]@,
                i < t.names@.len(),
                name == &t.names@[i as int],
                out@ == out_pre + gname.subrange(0, j as int),
            decreases name_len - j,
        {
            out.push(name[j]);
            proof {
                assert(out@ =~= out_pre + gname.subrange(0, j as int + 1));
            }
            j = j + 1;
        }
        proof {
            assert(gname.subrange(0, gname.len() as int) =~= gname);
        }
        out.push(61);
        let st = t.stats[i];
        proof {
            assert(st@ == t.stat_at(i as int));
            assert(g_wf(st@));
            crate::stat::lemma_mean_bounds(st@);
        }
        push_tenths(&mut out, st.min);
        out.push(47);
        let mean = st.mean_tenths();
        push_tenths(&mut out, mean);
        out.push(47);
        push_tenths(&mut out, st.max);
        proof {
            assert(out@ =~= out_pre + render_entry(t.key_at(i as int), t.stat_at(i as int)));
            assert(out@ =~= seq![123u8] + render_body(*t, i as int + 1));
        }
        i = i + 1;
    }
    out.push(125);
    out.push(10);
    proof {
        assert(out@ =~= seq![123u8] + render_body(*t, t.len()) + seq![125u8, 10u8]);
    }
    out
}

} // verus!
