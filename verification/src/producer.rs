//! The producer: once it learns the surface resolution it walks the pixel
//! domain in a fixed, deterministic order and cuts the resulting stream of
//! pixel updates into bounded batches. A first command that is not the
//! resolution announcement is a protocol violation and makes the producer
//! escalate a quit instead of guessing a resolution.

use crate::message::{batch_views, white, Color, Command, Pixel};
use vstd::arithmetic::div_mod::{
    lemma_div_is_ordered, lemma_div_multiples_vanish_fancy, lemma_div_pos_is_pos,
    lemma_fundamental_div_mod, lemma_fundamental_div_mod_converse,
    lemma_mod_division_less_than_divisor,
};
use vstd::arithmetic::mul::lemma_mul_inequality;
use vstd::prelude::*;

verus! {

/// The pixel at position `i` of the producer's walk over a domain with `h`
/// pixels per column: the outer loop runs `x` over `[0, w)` and the inner
/// loop runs `y` over `[0, h)`, so position `i` holds `(i / h, i % h)`.
pub open spec fn domain_pixel(h: u32, i: int) -> Pixel {
    Pixel { x: (i / (h as int)) as u32, y: (i % (h as int)) as u32, color: white() }
}

/// The whole pixel domain of a `w` by `h` surface, in the order the producer
/// visits it.
pub open spec fn domain_seq(w: u32, h: u32) -> Seq<Pixel> {
    Seq::new((w as nat) * (h as nat), |i: int| domain_pixel(h, i))
}

/// How many batches a domain of `n` pixels yields under batch bound `b`:
/// `n / b` rounded up.
pub open spec fn batch_count(n: int, b: int) -> int {
    (n + b - 1) / b
}

/// Where batch `i` ends in the flattened domain: `b` pixels past its start,
/// or at the domain's end, whichever comes first.
pub open spec fn batch_end(n: int, b: int, i: int) -> int {
    if (i + 1) * b <= n {
        (i + 1) * b
    } else {
        n
    }
}

/// `batches` is exactly `s` cut into consecutive chunks of `b` pixels, in
/// order, the last chunk holding whatever remains.
pub open spec fn is_batching_of(batches: Seq<Seq<Pixel>>, s: Seq<Pixel>, b: int) -> bool {
    &&& batches.len() == batch_count(s.len() as int, b)
    &&& forall|i: int|
        0 <= i < batches.len() ==> #[trigger] batches[i] == s.subrange(
            i * b,
            batch_end(s.len() as int, b, i),
        )
}

/// Walk the `w` by `h` domain in the fixed order and cut it into batches of
/// at most `b` pixels, every pixel painted with the placeholder color.
pub fn produce_batches(w: u32, h: u32, b: usize) -> (batches: Vec<Vec<Pixel>>)
    requires
        b >= 1,
        w as int * h as int <= usize::MAX as int,
    ensures
        is_batching_of(batch_views(batches@), domain_seq(w, h), b as int),
{
    let ghost dom = domain_seq(w, h);
    let mut batches: Vec<Vec<Pixel>> = Vec::new();
    let mut cur: Vec<Pixel> = Vec::new();
    let mut x: u32 = 0;
    proof {
        assert(0int * (b as int) == 0) by (nonlinear_arith);
        assert(0int * (h as int) == 0) by (nonlinear_arith);
    }
    while x < w
        invariant
            b >= 1,
            x <= w,
            w as int * h as int <= usize::MAX as int,
            dom == domain_seq(w, h),
            batches@.len() as int * b as int + cur@.len() as int == x as int * h as int,
            cur@.len() < b as int,
            forall|i: int|
                0 <= i < batches@.len() ==> (#[trigger] batches@[i])@ == dom.subrange(
                    i * b as int,
                    (i + 1) * b as int,
                ),
            cur@ == dom.subrange(batches@.len() as int * b as int, x as int * h as int),
        decreases w - x,
    {
        let mut y: u32 = 0;
        while y < h
            invariant
                b >= 1,
                x < w,
                y <= h,
                w as int * h as int <= usize::MAX as int,
                dom == domain_seq(w, h),
                batches@.len() as int * b as int + cur@.len() as int == x as int * h as int
                    + y as int,
            cur@.len() < b as int,
                forall|i: int|
                    0 <= i < batches@.len() ==> (#[trigger] batches@[i])@ == dom.subrange(
                        i * b as int,
                        (i + 1) * b as int,
                    ),
                cur@ == dom.subrange(
                    batches@.len() as int * b as int,
                    x as int * h as int + y as int,
                ),
            decreases h - y,
        {
            let ghost p_idx = x as int * h as int + y as int;
            proof {
                assert((x as int) * (h as int) + (y as int) < (w as int) * (h as int))
                    by (nonlinear_arith)
                    requires
                        0 <= (x as int) < (w as int),
                        0 <= (y as int) < (h as int),
                ;
                lemma_fundamental_div_mod_converse(p_idx, h as int, x as int, y as int);
                assert(dom[p_idx] == (Pixel { x, y, color: white() }));
            }
            cur.push(Pixel { x, y, color: Color::white() });
            proof {
                assert(cur@ =~= dom.subrange(batches@.len() as int * b as int, p_idx + 1));
            }
            if cur.len() >= b {
                proof {
                    assert((batches@.len() as int + 1) * b as int == batches@.len() as int
                        * b as int + b as int) by (nonlinear_arith);
                }
                batches.push(cur);
                cur = Vec::new();
                proof {
                    assert(cur@ =~= dom.subrange(batches@.len() as int * b as int, p_idx + 1));
                }
            }
            y = y + 1;
        }
        proof {
            assert((x as int + 1) * h as int == x as int * h as int + h as int)
                by (nonlinear_arith);
        }
        x = x + 1;
    }
    let ghost k = batches@.len() as int;
    let ghost r = cur@.len() as int;
    let ghost n = dom.len() as int;
    if cur.len() > 0 {
        batches.push(cur);
    }
    proof {
        let bi = b as int;
        assert(k * bi + r == n);
        assert(k * bi == bi * k) by (nonlinear_arith);
        if r == 0 {
            lemma_div_multiples_vanish_fancy(k, bi - 1, bi);
            assert(batch_count(n, bi) == k);
        } else {
            lemma_div_multiples_vanish_fancy(k + 1, r - 1, bi);
            assert(bi * (k + 1) == bi * k + bi) by (nonlinear_arith);
            assert(n + bi - 1 == bi * (k + 1) + (r - 1));
            assert(batch_count(n, bi) == k + 1);
        }
        let bs = batch_views(batches@);
        assert(bs.len() == batch_count(n, bi));
        assert forall|i: int| 0 <= i < bs.len() implies #[trigger] bs[i] == dom.subrange(
            i * bi,
            batch_end(n, bi, i),
        ) by {
            assert(bs[i] == batches@[i]@);
            assert((i + 1) * bi == i * bi + bi) by (nonlinear_arith);
            if i < k {
                lemma_mul_inequality(i + 1, k, bi);
                assert((i + 1) * bi <= k * bi);
                assert(batch_end(n, bi, i) == (i + 1) * bi);
            } else {
                assert(r > 0 && i == k);
                assert(batch_end(n, bi, i) == n);
            }
        }
        assert(is_batching_of(bs, dom, bi));
    }
    batches
}

/// Sizes of the emitted batches: every batch but the last holds exactly `b`
/// pixels, and the last holds `n % b` pixels — or `b` itself when `b`
/// divides the domain size `n` evenly.
pub proof fn lemma_batch_sizes(batches: Seq<Seq<Pixel>>, s: Seq<Pixel>, b: int)
    requires
        b >= 1,
        is_batching_of(batches, s, b),
    ensures
        forall|i: int| 0 <= i < batches.len() - 1 ==> (#[trigger] batches[i]).len() == b,
        batches.len() > 0 ==> batches[batches.len() - 1].len() == (if s.len() as int % b == 0 {
            b
        } else {
            s.len() as int % b
        }),
{
    let n = s.len() as int;
    let k = batches.len() as int;
    let q = n / b;
    let r = n % b;
    lemma_fundamental_div_mod(n, b);
    lemma_mod_division_less_than_divisor(n, b);
    if r == 0 {
        lemma_div_multiples_vanish_fancy(q, b - 1, b);
        assert(n + b - 1 == b * q + (b - 1));
        assert(k == q);
    } else {
        lemma_div_multiples_vanish_fancy(q + 1, r - 1, b);
        assert(b * (q + 1) == b * q + b) by (nonlinear_arith);
        assert(n + b - 1 == b * (q + 1) + (r - 1));
        assert(k == q + 1);
    }
    assert(b * q == q * b) by (nonlinear_arith);
    assert((k - 1) * b <= n) by {
        if r == 0 {
            assert((q - 1) * b == q * b - b) by (nonlinear_arith);
        } else {
            assert(q * b <= q * b + r);
        }
    }
    assert forall|i: int| 0 <= i < k - 1 implies (#[trigger] batches[i]).len() == b by {
        lemma_mul_inequality(i + 1, k - 1, b);
        assert((i + 1) * b == i * b + b) by (nonlinear_arith);
        assert(batch_end(n, b, i) == (i + 1) * b);
        assert(batches[i].len() == s.subrange(i * b, (i + 1) * b).len());
    }
    if k > 0 {
        let i = k - 1;
        assert((i + 1) * b == i * b + b) by (nonlinear_arith);
        if r == 0 {
            assert(batch_end(n, b, i) == k * b);
            assert(batches[i].len() == s.subrange(i * b, k * b).len());
        } else {
            assert(batch_end(n, b, i) == n);
            assert(batches[i].len() == s.subrange(i * b, n).len());
        }
    }
}

/// The batch stream holds the pixel for coordinate `(x, y)` exactly where
/// its flat row-major position `x * h + y` falls: in batch `p / b`, at
/// offset `p % b`, painted with the placeholder color.
pub open spec fn holds_coordinate(
    batches: Seq<Seq<Pixel>>,
    h: u32,
    b: int,
    x: u32,
    y: u32,
) -> bool {
    let p = (x as int) * (h as int) + (y as int);
    &&& 0 <= p / b < batches.len()
    &&& 0 <= p % b < batches[p / b].len()
    &&& batches[p / b][p % b] == (Pixel { x, y, color: white() })
}

/// The entry at offset `j` of batch `i` carries in-range coordinates whose
/// flat row-major position is exactly `i * b + j` — distinct entries thus
/// carry distinct coordinates.
pub open spec fn entry_matches_position(
    batches: Seq<Seq<Pixel>>,
    w: u32,
    h: u32,
    b: int,
    i: int,
    j: int,
) -> bool {
    let p = batches[i][j];
    &&& p.x < w
    &&& p.y < h
    &&& p.color == white()
    &&& (p.x as int) * (h as int) + (p.y as int) == i * b + j
}

/// Coverage of the domain: across all emitted batches, every coordinate of
/// the `w` by `h` grid appears exactly once — each coordinate is found at
/// its flat position, and every entry sits at the flat position its
/// coordinates dictate.
pub proof fn lemma_domain_coverage(w: u32, h: u32, batches: Seq<Seq<Pixel>>, b: int)
    requires
        b >= 1,
        is_batching_of(batches, domain_seq(w, h), b),
    ensures
        forall|x: u32, y: u32|
            x < w && y < h ==> #[trigger] holds_coordinate(batches, h, b, x, y),
        forall|i: int, j: int|
            0 <= i < batches.len() && 0 <= j < batches[i].len()
                ==> #[trigger] entry_matches_position(batches, w, h, b, i, j),
{
    let dom = domain_seq(w, h);
    let n = dom.len() as int;
    let k = batches.len() as int;
    let q = n / b;
    let r = n % b;
    lemma_fundamental_div_mod(n, b);
    lemma_mod_division_less_than_divisor(n, b);
    assert(b * q == q * b) by (nonlinear_arith);
    if r == 0 {
        lemma_div_multiples_vanish_fancy(q, b - 1, b);
        assert(n + b - 1 == b * q + (b - 1));
        assert(k == q);
    } else {
        lemma_div_multiples_vanish_fancy(q + 1, r - 1, b);
        assert(b * (q + 1) == b * q + b) by (nonlinear_arith);
        assert(n + b - 1 == b * (q + 1) + (r - 1));
        assert(k == q + 1);
    }
    // the position one past the last: (k - 1) * b stays within the domain
    assert((k - 1) * b <= n) by {
        if r == 0 {
            assert((q - 1) * b == q * b - b) by (nonlinear_arith);
        } else {
            assert(q * b <= q * b + r);
        }
    }
    // every coordinate is found at its flat position
    assert forall|x: u32, y: u32| x < w && y < h implies #[trigger] holds_coordinate(
        batches,
        h,
        b,
        x,
        y,
    ) by {
        let p = (x as int) * (h as int) + (y as int);
        assert(0 <= p && p < n) by (nonlinear_arith)
            requires
                0 <= (x as int) < (w as int),
                0 <= (y as int) < (h as int),
                n == (w as int) * (h as int),
                p == (x as int) * (h as int) + (y as int),
        ;
        let i = p / b;
        let j = p % b;
        lemma_fundamental_div_mod(p, b);
        lemma_mod_division_less_than_divisor(p, b);
        lemma_div_pos_is_pos(p, b);
        assert(i < k) by {
            lemma_div_is_ordered(p, n - 1, b);
            if r == 0 {
                assert(b * (q - 1) == b * q - b) by (nonlinear_arith);
                assert((q - 1) * b == b * (q - 1)) by (nonlinear_arith);
                lemma_fundamental_div_mod_converse(n - 1, b, q - 1, b - 1);
            } else {
                lemma_fundamental_div_mod_converse(n - 1, b, q, r - 1);
            }
        }
        assert(batches[i] == dom.subrange(i * b, batch_end(n, b, i)));
        assert((i + 1) * b == i * b + b) by (nonlinear_arith);
        assert(b * i == i * b) by (nonlinear_arith);
        assert(i * b <= p < i * b + b);
        assert(0 <= j < batches[i].len());
        assert(batches[i][j] == dom[p]);
        lemma_fundamental_div_mod_converse(p, h as int, x as int, y as int);
        assert(batches[i][j] == (Pixel { x, y, color: white() }));
    }
    // every entry sits at the flat position its coordinates dictate
    assert forall|i: int, j: int|
        0 <= i < batches.len() && 0 <= j < batches[i].len()
            implies #[trigger] entry_matches_position(batches, w, h, b, i, j) by {
        assert(batches[i] == dom.subrange(i * b, batch_end(n, b, i)));
        assert(0 <= i * b) by (nonlinear_arith)
            requires
                0 <= i,
                1 <= b,
        ;
        assert(i * b <= n) by {
            lemma_mul_inequality(i, k - 1, b);
        }
        assert((i + 1) * b == i * b + b) by (nonlinear_arith);
        assert(i * b <= batch_end(n, b, i) <= n);
        assert(batches[i].len() == batch_end(n, b, i) - i * b);
        let p = i * b + j;
        assert(p < batch_end(n, b, i));
        assert(batches[i][j] == dom[p]);
        assert(0 < n);
        assert(0 < (w as int) && 0 < (h as int)) by (nonlinear_arith)
            requires
                0 < n,
                n == (w as int) * (h as int),
        ;
        lemma_fundamental_div_mod(p, h as int);
        lemma_mod_division_less_than_divisor(p, h as int);
        lemma_div_pos_is_pos(p, h as int);
        assert(p / (h as int) < w as int) by {
            lemma_div_is_ordered(p, n - 1, h as int);
            assert(n - 1 == ((w as int) - 1) * (h as int) + ((h as int) - 1)) by (nonlinear_arith)
                requires
                    n == (w as int) * (h as int),
                    0 < (w as int),
                    0 < (h as int),
            ;
            lemma_fundamental_div_mod_converse(n - 1, h as int, (w as int) - 1, (h as int) - 1);
        }
        assert((h as int) * (p / (h as int)) == (p / (h as int)) * (h as int))
            by (nonlinear_arith);
        assert(entry_matches_position(batches, w, h, b, i, j));
    }
}

/// `c` is a `Draw` command whose batch reads exactly `s`.
pub open spec fn is_draw_of(c: Command, s: Seq<Pixel>) -> bool {
    match c {
        Command::Draw(v) => v@ == s,
        _ => false,
    }
}

/// The startup handshake decision: the first command the producer receives
/// must be the resolution announcement; anything else is a protocol
/// violation and yields no dimensions — the producer never guesses a
/// default resolution.
pub fn handshake(first: &Command) -> (r: Option<(u32, u32)>)
    ensures
        (match *first {
            Command::Resolution(w, h) => r == Some((w, h)),
            _ => r is None,
        }),
{
    match first {
        Command::Resolution(w, h) => Some((*w, *h)),
        _ => None,
    }
}

/// Everything the producer sends to the router in response to its first
/// received command, in order: after a resolution announcement, one `Draw`
/// command per batch of the domain walk and nothing else; after any other
/// first command — a protocol violation — a single `Quit` and no `Draw` at
/// all.
pub fn producer_emissions(first: &Command, b: usize) -> (out: Vec<Command>)
    requires
        b >= 1,
        (match *first {
            Command::Resolution(w, h) => (w as int) * (h as int) <= usize::MAX as int,
            _ => true,
        }),
    ensures
        (match *first {
            Command::Resolution(w, h) => {
                &&& out@.len() == batch_count((w as int) * (h as int), b as int)
                &&& forall|i: int|
                    0 <= i < out@.len() ==> is_draw_of(
                        #[trigger] out@[i],
                        domain_seq(w, h).subrange(
                            i * (b as int),
                            batch_end((w as int) * (h as int), b as int, i),
                        ),
                    )
            },
            _ => out@ == seq![Command::Quit],
        }),
{
    match first {
        Command::Resolution(w, h) => {
            let mut batches = produce_batches(*w, *h, b);
            let ghost all = batch_views(batches@);
            let mut out: Vec<Command> = Vec::new();
            while batches.len() > 0
                invariant
                    out@.len() as int + batches@.len() as int == all.len() as int,
                    forall|j: int|
                        0 <= j < out@.len() ==> is_draw_of(#[trigger] out@[j], all[j]),
                    forall|j: int|
                        0 <= j < batches@.len() ==> (#[trigger] batches@[j])@ == all[out@.len()
                            + j],
                decreases batches@.len(),
            {
                let batch = batches.remove(0);
                out.push(Command::Draw(batch));
            }
            out
        },
        _ => {
            let mut out: Vec<Command> = Vec::new();
            out.push(Command::Quit);
            proof {
                assert(out@ =~= seq![Command::Quit]);
            }
            out
        },
    }
}

/// The idle-phase decision: after the domain is exhausted the producer keeps
/// draining its inbound queue, discarding everything, and stops only on
/// `Quit` — or on a closed channel (`None`), which counts as a quit.
pub fn idle_continues(cmd: &Option<Command>) -> (r: bool)
    ensures
        r == !(match *cmd {
            None => true,
            Some(Command::Quit) => true,
            _ => false,
        }),
{
    match cmd {
        None => false,
        Some(Command::Quit) => false,
        _ => true,
    }
}

} // verus!
