//! The heads-up statistics text.
use vstd::prelude::*;

use crate::numerals::{all_digits, decimal, is_digit, lemma_decimal_value, push_decimal};
use crate::species::{census, count_of, Species};

verus! {

/// The statistics text for the given counts, score and auto-orbit setting.
pub open spec fn stats_view(squid: u32, tuna: u32, eaten: u32, auto: bool) -> Seq<char> {
    "🦑 Squid vs Tuna — 3D Boids\nSquid: "@ + decimal(squid as nat) + "    Tuna: "@ + decimal(
        tuna as nat,
    ) + "\nSquid eaten: "@ + decimal(eaten as nat)
        + "\n\n[WASD/Arrows] orbit   [Q/E] zoom   [Space] toggle auto-orbit ("@ + (if auto {
        "on"@
    } else {
        "off"@
    }) + ")"@
}

/// A run of digits followed by a non-digit is read off unambiguously.
proof fn lemma_digits_split(d1: Seq<char>, t1: Seq<char>, d2: Seq<char>, t2: Seq<char>)
    requires
        all_digits(d1),
        all_digits(d2),
        t1.len() > 0,
        t2.len() > 0,
        !is_digit(t1[0]),
        !is_digit(t2[0]),
        d1 + t1 == d2 + t2,
    ensures
        d1 == d2,
        t1 == t2,
{
    if d1.len() < d2.len() {
        assert((d1 + t1)[d1.len() as int] == t1[0]);
        assert((d2 + t2)[d1.len() as int] == d2[d1.len() as int]);
    } else if d2.len() < d1.len() {
        assert((d2 + t2)[d2.len() as int] == t2[0]);
        assert((d1 + t1)[d2.len() as int] == d1[d2.len() as int]);
    }
    assert(d1 =~= (d1 + t1).subrange(0, d1.len() as int));
    assert(d2 =~= (d2 + t2).subrange(0, d2.len() as int));
    assert(t1 =~= (d1 + t1).subrange(d1.len() as int, (d1 + t1).len() as int));
    assert(t2 =~= (d2 + t2).subrange(d2.len() as int, (d2 + t2).len() as int));
}

proof fn lemma_strip_prefix(p: Seq<char>, r1: Seq<char>, r2: Seq<char>)
    requires
        p + r1 == p + r2,
    ensures
        r1 == r2,
{
    assert(r1 =~= (p + r1).subrange(p.len() as int, (p + r1).len() as int));
    assert(r2 =~= (p + r2).subrange(p.len() as int, (p + r2).len() as int));
}

/// The statistics text ends with `(on)` when auto-orbit is on and with
/// `(off)` when it is off, whatever the counts and the score.
pub proof fn lemma_stats_auto(squid: u32, tuna: u32, eaten: u32, auto: bool)
    ensures
        ({
            let v = stats_view(squid, tuna, eaten, auto);
            &&& auto ==> v.len() >= 4 && v.subrange(v.len() - 4, v.len() as int) == "(on)"@
            &&& !auto ==> v.len() >= 5 && v.subrange(v.len() - 5, v.len() as int) == "(off)"@
        }),
{
    reveal_strlit("\n\n[WASD/Arrows] orbit   [Q/E] zoom   [Space] toggle auto-orbit (");
    reveal_strlit("on");
    reveal_strlit("off");
    reveal_strlit(")");
    reveal_strlit("(on)");
    reveal_strlit("(off)");
    let v = stats_view(squid, tuna, eaten, auto);
    if auto {
        assert(v.subrange(v.len() - 4, v.len() as int) =~= "(on)"@);
    } else {
        assert(v.subrange(v.len() - 5, v.len() as int) =~= "(off)"@);
    }
}

proof fn lemma_layout(
    t: Seq<char>,
    a: Seq<char>,
    b: Seq<char>,
    c: Seq<char>,
    d: Seq<char>,
    e: Seq<char>,
    f: Seq<char>,
    g: Seq<char>,
    h: Seq<char>,
)
    ensures
        t + a + b + c + d + e + f + g + h == t + (a + (b + (c + (d + (e + (f + g + h)))))),
{
    assert(t + a + b + c + d + e + f + g + h =~= t + (a + (b + (c + (d + (e + (f + g + h)))))));
}

/// Different counts, scores or auto-orbit settings give different texts:
/// the text shows each of them, and nothing else decides it.
#[verifier::rlimit(40)]
pub proof fn lemma_stats_distinct(
    squid1: u32,
    tuna1: u32,
    eaten1: u32,
    auto1: bool,
    squid2: u32,
    tuna2: u32,
    eaten2: u32,
    auto2: bool,
)
    requires
        stats_view(squid1, tuna1, eaten1, auto1) == stats_view(squid2, tuna2, eaten2, auto2),
    ensures
        squid1 == squid2,
        tuna1 == tuna2,
        eaten1 == eaten2,
        auto1 == auto2,
{
    let t = "🦑 Squid vs Tuna — 3D Boids\nSquid: "@;
    let b = "    Tuna: "@;
    let c = "\nSquid eaten: "@;
    let e = "\n\n[WASD/Arrows] orbit   [Q/E] zoom   [Space] toggle auto-orbit ("@;
    reveal_strlit("    Tuna: ");
    reveal_strlit("\nSquid eaten: ");
    reveal_strlit("\n\n[WASD/Arrows] orbit   [Q/E] zoom   [Space] toggle auto-orbit (");
    reveal_strlit("on");
    reveal_strlit("off");
    reveal_strlit(")");
    let x1 = if auto1 {
        "on"@
    } else {
        "off"@
    };
    let x2 = if auto2 {
        "on"@
    } else {
        "off"@
    };
    let ds1 = decimal(squid1 as nat);
    let dt1 = decimal(tuna1 as nat);
    let de1 = decimal(eaten1 as nat);
    let ds2 = decimal(squid2 as nat);
    let dt2 = decimal(tuna2 as nat);
    let de2 = decimal(eaten2 as nat);
    let tail1 = e + x1 + ")"@;
    let tail2 = e + x2 + ")"@;
    let r1 = de1 + tail1;
    let r2 = de2 + tail2;
    let q1 = dt1 + (c + r1);
    let q2 = dt2 + (c + r2);
    let p1 = ds1 + (b + q1);
    let p2 = ds2 + (b + q2);
    lemma_layout(t, ds1, b, dt1, c, de1, e, x1, ")"@);
    lemma_layout(t, ds2, b, dt2, c, de2, e, x2, ")"@);
    assert(stats_view(squid1, tuna1, eaten1, auto1) == t + p1);
    assert(stats_view(squid2, tuna2, eaten2, auto2) == t + p2);
    lemma_decimal_value(squid1 as nat);
    lemma_decimal_value(tuna1 as nat);
    lemma_decimal_value(eaten1 as nat);
    lemma_decimal_value(squid2 as nat);
    lemma_decimal_value(tuna2 as nat);
    lemma_decimal_value(eaten2 as nat);
    lemma_strip_prefix(t, p1, p2);
    assert((b + q1)[0] == ' ');
    assert((b + q2)[0] == ' ');
    lemma_digits_split(ds1, b + q1, ds2, b + q2);
    lemma_strip_prefix(b, q1, q2);
    assert((c + r1)[0] == '\n');
    assert((c + r2)[0] == '\n');
    lemma_digits_split(dt1, c + r1, dt2, c + r2);
    lemma_strip_prefix(c, r1, r2);
    assert(tail1[0] == '\n');
    assert(tail2[0] == '\n');
    lemma_digits_split(de1, tail1, de2, tail2);
    assert(tail1 =~= e + (x1 + ")"@));
    assert(tail2 =~= e + (x2 + ")"@));
    lemma_strip_prefix(e, x1 + ")"@, x2 + ")"@);
    assert((x1 + ")"@).len() != (x2 + ")"@).len() || auto1 == auto2);
}

/// Build the statistics text: title, squid and tuna counts, squid eaten,
/// and the key help with the auto-orbit state.
pub fn stats_text(squid: u32, tuna: u32, eaten: u32, auto: bool) -> (text: String)
    ensures
        text@ == stats_view(squid, tuna, eaten, auto),
{
    let mut text = String::from_str("🦑 Squid vs Tuna — 3D Boids\nSquid: ");
    push_decimal(&mut text, squid);
    text.append("    Tuna: ");
    push_decimal(&mut text, tuna);
    text.append("\nSquid eaten: ");
    push_decimal(&mut text, eaten);
    text.append("\n\n[WASD/Arrows] orbit   [Q/E] zoom   [Space] toggle auto-orbit (");
    if auto {
        text.append("on");
    } else {
        text.append("off");
    }
    text.append(")");
    text
}

/// Refresh the statistics text: count the squid and tuna among `boids` and
/// write the text for those counts, the score and the auto-orbit setting.
pub fn update_stats(text: &mut String, boids: &[Species], eaten: u32, auto: bool)
    requires
        count_of(boids@, Species::Squid) <= u32::MAX,
        count_of(boids@, Species::Tuna) <= u32::MAX,
    ensures
        final(text)@ == stats_view(
            count_of(boids@, Species::Squid) as u32,
            count_of(boids@, Species::Tuna) as u32,
            eaten,
            auto,
        ),
{
    let (squid, tuna) = census(boids);
    *text = stats_text(squid, tuna, eaten, auto);
}

} // verus!
