use vstd::prelude::*;

use crate::span_tree::{subtree_end, SpanTreeNode};
use crate::strings::{dec_digit, dec_str, u128_to_dec, u64_to_dec, digit_str};
use crate::timing::{DerivedStats, Ratio, TimingTree};

verus! {

/// `k` spaces.
pub open spec fn spaces(k: nat) -> Seq<char>
    decreases k,
{
    if k == 0 {
        Seq::empty()
    } else {
        spaces((k - 1) as nat).push(' ')
    }
}

/// `s`, padded on the left with spaces to at least `w` characters.
pub open spec fn padded_left(s: Seq<char>, w: nat) -> Seq<char> {
    if s.len() >= w {
        s
    } else {
        spaces((w - s.len()) as nat) + s
    }
}

/// `num / den` in tenths, rounded half to even; `den` must be positive.
pub open spec fn half_even_tenths(num: nat, den: nat) -> nat {
    let q = (10 * num) / den;
    let r = (10 * num) % den;
    if 2 * r > den {
        (q + 1) as nat
    } else if 2 * r < den {
        q
    } else if q % 2 == 0 {
        q
    } else {
        (q + 1) as nat
    }
}

/// A number of tenths as a numeral with one decimal place.
pub open spec fn fixed_tenths(t: nat) -> Seq<char> {
    dec_str(t / 10) + seq!['.'] + seq![dec_digit((t % 10) as int)]
}

/// The largest power of ten no greater than `n`.
pub open spec fn msd_power(n: nat) -> nat
    decreases n,
{
    if n < 10 {
        1
    } else {
        10 * msd_power(n / 10)
    }
}

/// How many decimal digits `n` has.
pub open spec fn num_digits(n: nat) -> nat
    decreases n,
{
    if n < 10 {
        1
    } else {
        1 + num_digits(n / 10)
    }
}

/// Numerators up to this bound scale to tenths of a percent without
/// overflowing the arithmetic.
pub open spec fn exact_ratio_bound() -> u128 {
    u128::MAX / 1000
}

/// The tenths of a percent that a ratio renders as: exact half-even rounding
/// of `1000 * numer / denom`, except for numerators beyond
/// `exact_ratio_bound`, where the fractional part is dropped.
pub open spec fn ratio_tenths(numer: u128, denom: u128) -> nat {
    if numer <= exact_ratio_bound() {
        half_even_tenths((100 * numer) as nat, denom as nat)
    } else if (numer as nat) / (denom as nat) <= exact_ratio_bound() {
        ((numer as nat) / (denom as nat)) * 1000
    } else {
        (exact_ratio_bound() as nat) * 1000
    }
}

/// What a proportion renders as: `"    N/A"` when there is none, `"  NaN %"`
/// when the reference duration is zero, and otherwise the percentage with
/// one decimal place, right-aligned to at least five characters.
pub open spec fn proportion_cell_spec(r: Option<Ratio>) -> Seq<char> {
    match r {
        None => "    N/A"@,
        Some(ratio) => if ratio.denom == 0 {
            "  NaN %"@
        } else {
            padded_left(fixed_tenths(ratio_tenths(ratio.numer, ratio.denom)), 5) + " %"@
        },
    }
}

/// What a duration in nanoseconds renders as: the value scaled to the
/// largest fitting unit with one decimal place, right-aligned to at least
/// five characters; seconds from a thousand up use scientific notation with
/// the leading two digits. An absent duration renders as `"   N/A   "`.
pub open spec fn duration_cell_spec(d: Option<u128>) -> Seq<char> {
    match d {
        None => "   N/A   "@,
        Some(n) => {
            if 0 < n && n < 1000 {
                padded_left(fixed_tenths((n * 10) as nat), 5) + " ns"@
            } else if 1000 <= n && n < 1000000 {
                padded_left(fixed_tenths(half_even_tenths(n as nat, 1000)), 5) + " \u{3bc}s"@
            } else if 1000000 <= n && n < 1000000000 {
                padded_left(fixed_tenths(half_even_tenths(n as nat, 1000000)), 5) + " ms"@
            } else if n == 0 || (1000000000 <= n && n < 1000000000000) {
                padded_left(fixed_tenths(half_even_tenths(n as nat, 1000000000)), 5) + " s "@
            } else {
                let p = msd_power(n as nat);
                let d1 = (n as nat) / p;
                let d2 = ((n as nat) % p) / (p / 10);
                let exponent = (num_digits(n as nat) - 10) as nat;
                padded_left(
                    seq![dec_digit(d1 as int), '.', dec_digit(d2 as int), 'e'] + dec_str(exponent),
                    5,
                ) + " s "@
            }
        },
    }
}

/// Appends `k` spaces.
fn push_spaces(out: &mut String, k: usize)
    ensures
        final(out)@ == old(out)@ + spaces(k as nat),
{
    let ghost base = out@;
    let mut i: usize = 0;
    proof {
        reveal_strlit(" ");
        assert(out@ =~= base + spaces(0));
    }
    while i < k
        invariant
            i <= k,
            out@ == base + spaces(i as nat),
        decreases k - i,
    {
        out.append(" ");
        i = i + 1;
        proof {
            reveal_strlit(" ");
            assert(out@ =~= base + spaces(i as nat));
        }
    }
}

/// Pads a cell on the left with spaces to at least `w` characters.
fn pad_left(s: String, w: usize) -> (r: String)
    ensures
        r@ == padded_left(s@, w as nat),
{
    let n = s.unicode_len();
    if n >= w {
        s
    } else {
        let mut out = String::new();
        push_spaces(&mut out, w - n);
        out.append(s.as_str());
        proof {
            assert(out@ =~= spaces((w - s@.len()) as nat) + s@);
        }
        out
    }
}

/// Renders tenths as a numeral with one decimal place.
fn fixed_tenths_exec(t: u128) -> (r: String)
    ensures
        r@ == fixed_tenths(t as nat),
{
    let mut s = u128_to_dec(t / 10);
    proof {
        reveal_strlit(".");
    }
    s.append(".");
    s.append(digit_str(t % 10));
    proof {
        assert(s@ =~= fixed_tenths(t as nat));
    }
    s
}

/// Computes half-even rounding of `num / den` in tenths.
fn half_even_tenths_exec(num: u128, den: u128) -> (r: u128)
    requires
        den > 0,
        num <= u128::MAX / 10,
    ensures
        r == half_even_tenths(num as nat, den as nat),
{
    let q = (10 * num) / den;
    let r0 = (10 * num) % den;
    proof {
        assert(q <= 10 * num);
    }
    if den - r0 < r0 {
        q + 1
    } else if r0 < den - r0 {
        q
    } else if q % 2 == 0 {
        q
    } else {
        q + 1
    }
}

/// Renders one proportion cell.
///
/// A node with no proportion to show renders as `"    N/A"`, and never
/// panics; a proportion against a zero reference renders as `"  NaN %"`.
pub fn proportion_cell(r: Option<Ratio>) -> (out: String)
    ensures
        out@ == proportion_cell_spec(r),
{
    match r {
        None => {
            let s = String::from_str("    N/A");
            proof {
                reveal_strlit("    N/A");
            }
            s
        },
        Some(ratio) => {
            if ratio.denom == 0 {
                let s = String::from_str("  NaN %");
                proof {
                    reveal_strlit("  NaN %");
                }
                s
            } else {
                let t: u128 = if ratio.numer <= u128::MAX / 1000 {
                    half_even_tenths_exec(100 * ratio.numer, ratio.denom)
                } else {
                    let whole = ratio.numer / ratio.denom;
                    if whole <= u128::MAX / 1000 {
                        whole * 1000
                    } else {
                        (u128::MAX / 1000) * 1000
                    }
                };
                let mut cell = pad_left(fixed_tenths_exec(t), 5);
                proof {
                    reveal_strlit(" %");
                }
                cell.append(" %");
                cell
            }
        },
    }
}

/// The power and digit count behind the scientific form of `n`.
fn sci_parts(n: u128) -> (r: (u128, u128))
    ensures
        r.0 == msd_power(n as nat),
        r.1 == num_digits(n as nat),
    decreases n,
{
    if n < 10 {
        (1, 1)
    } else {
        let (p, dg) = sci_parts(n / 10);
        proof {
            lemma_msd_power_le(n as nat / 10);
            lemma_num_digits_le(n as nat / 10);
        }
        (10 * p, dg + 1)
    }
}

proof fn lemma_num_digits_le(n: nat)
    ensures
        num_digits(n) <= n + 1,
    decreases n,
{
    if n >= 10 {
        lemma_num_digits_le(n / 10);
    }
}

proof fn lemma_msd_power_le(n: nat)
    ensures
        msd_power(n) <= n || n == 0,
        n > 0 ==> msd_power(n) <= n,
    decreases n,
{
    if n >= 10 {
        lemma_msd_power_le(n / 10);
    }
}

/// Renders one duration cell.
pub fn duration_cell(d: Option<u128>) -> (out: String)
    ensures
        out@ == duration_cell_spec(d),
{
    let n = match d {
        None => {
            let s = String::from_str("   N/A   ");
            proof {
                reveal_strlit("   N/A   ");
            }
            return s;
        },
        Some(n) => n,
    };
    let (body, unit) = if 0 < n && n < 1000 {
        (pad_left(fixed_tenths_exec(n * 10), 5), " ns")
    } else if 1000 <= n && n < 1000000 {
        (pad_left(fixed_tenths_exec(half_even_tenths_exec(n, 1000)), 5), " \u{3bc}s")
    } else if 1000000 <= n && n < 1000000000 {
        (pad_left(fixed_tenths_exec(half_even_tenths_exec(n, 1000000)), 5), " ms")
    } else if n == 0 || (1000000000 <= n && n < 1000000000000) {
        (pad_left(fixed_tenths_exec(half_even_tenths_exec(n, 1000000000)), 5), " s ")
    } else {
        let (p, digits) = sci_parts(n);
        proof {
            lemma_msd_power_le(n as nat);
            lemma_num_digits_ge(n as nat);
            lemma_msd_power_tenfold(n as nat);
            lemma_msd_digit(n as nat);
        }
        let d1 = n / p;
        let d2 = (n % p) / (p / 10);
        proof {
            assert(n % p < p);
            assert(p == 10 * (p / 10));
            assert(p / 10 > 0);
            assert((n % p) / (p / 10) < 10) by {
                let x = (n % p) as int;
                let y = (p / 10) as int;
                vstd::arithmetic::div_mod::lemma_fundamental_div_mod(x, y);
                if x / y >= 10 {
                    vstd::arithmetic::mul::lemma_mul_inequality(10, x / y, y);
                    assert(y * (x / y) >= y * 10) by {
                        vstd::arithmetic::mul::lemma_mul_inequality(10, x / y, y);
                        assert(y * (x / y) == (x / y) * y) by {
                            vstd::arithmetic::mul::lemma_mul_is_commutative(y, x / y);
                        }
                        assert(y * 10 == 10 * y) by {
                            vstd::arithmetic::mul::lemma_mul_is_commutative(y, 10);
                        }
                    }
                    assert(x >= 10 * y);
                    assert(false);
                }
            }
            assert(d1 < 10);
        }
        let mut body = u128_to_dec(d1);
        proof {
            reveal_strlit(".");
            reveal_strlit("e");
            assert(dec_str(d1 as nat) =~= seq![dec_digit(d1 as int)]);
        }
        body.append(".");
        body.append(digit_str(d2));
        body.append("e");
        let exp = u128_to_dec(digits - 10);
        body.append(exp.as_str());
        proof {
            assert(body@ =~= seq![
                dec_digit(d1 as int),
                '.',
                dec_digit(d2 as int),
                'e',
            ] + dec_str((digits - 10) as nat));
        }
        (pad_left(body, 5), " s ")
    };
    let mut out = body;
    proof {
        reveal_strlit(" ns");
        reveal_strlit(" \u{3bc}s");
        reveal_strlit(" ms");
        reveal_strlit(" s ");
    }
    out.append(unit);
    out
}

proof fn lemma_num_digits_ge(n: nat)
    ensures
        n >= 1000000000000 ==> num_digits(n) >= 13,
    decreases n,
{
    if n >= 10 {
        lemma_num_digits_ge(n / 10);
        if n >= 1000000000000 {
            assert(n / 10 >= 100000000000);
            lemma_num_digits_ge_helper(n / 10);
        }
    }
}

proof fn lemma_num_digits_ge_helper(n: nat)
    ensures
        n >= 100000000000 ==> num_digits(n) >= 12,
        n >= 10000000000 ==> num_digits(n) >= 11,
        n >= 1000000000 ==> num_digits(n) >= 10,
        n >= 100000000 ==> num_digits(n) >= 9,
        n >= 10000000 ==> num_digits(n) >= 8,
        n >= 1000000 ==> num_digits(n) >= 7,
        n >= 100000 ==> num_digits(n) >= 6,
        n >= 10000 ==> num_digits(n) >= 5,
        n >= 1000 ==> num_digits(n) >= 4,
        n >= 100 ==> num_digits(n) >= 3,
        n >= 10 ==> num_digits(n) >= 2,
    decreases n,
{
    if n >= 10 {
        lemma_num_digits_ge_helper(n / 10);
    }
}

proof fn lemma_msd_power_tenfold(n: nat)
    ensures
        n >= 10 ==> msd_power(n) % 10 == 0 && msd_power(n) / 10 == msd_power(n / 10),
        msd_power(n) >= 1,
    decreases n,
{
    if n >= 10 {
        lemma_msd_power_tenfold(n / 10);
    }
}

proof fn lemma_msd_digit(n: nat)
    ensures
        n > 0 ==> n / msd_power(n) < 10 && n / msd_power(n) >= 1,
    decreases n,
{
    if n >= 10 {
        lemma_msd_digit(n / 10);
        lemma_msd_power_tenfold(n / 10);
        let m = msd_power(n / 10);
        assert(m >= 1);
        assert(msd_power(n) == 10 * m);
        assert(((n as int) / 10) / (m as int) == (n as int) / (10 * (m as int))) by {
            vstd::arithmetic::div_mod::lemma_div_denominator(n as int, 10, m as int);
        }
        assert((n as int) / 10 == (n / 10) as int);
        assert(n / msd_power(n) == (n / 10) / m);
        assert((n / 10) / m >= 1 && (n / 10) / m < 10);
    } else {
        if n > 0 {
            assert(msd_power(n) == 1);
            assert(n / 1 == n);
        }
    }
}


proof fn lemma_subtree_end_le(d: Seq<Seq<Seq<char>>>, i: int, j: int)
    requires
        j <= d.len(),
    ensures
        subtree_end(d, i, j) <= d.len(),
    decreases d.len() - j,
{
    if j < d.len() && crate::span_path::ancestor_path_of(d[i], d[j]) {
        lemma_subtree_end_le(d, i, j + 1);
    }
}

/// The six cells of one body row: total and average duration, count, the
/// two proportions, and the connector-prefixed span name.
fn node_row(
    node: SpanTreeNode<'_, Option<DerivedStats>>,
    active_stack: &Vec<bool>,
) -> (r: Vec<String>)
    ensures
        r@.len() == 6,
{
    let stats = *node.payload();
    let total = duration_cell(
        match stats {
            Some(s) => Some(s.duration),
            None => None,
        },
    );
    let average = duration_cell(
        match stats {
            Some(s) => if s.count > 0 {
                Some(s.duration / (s.count as u128))
            } else {
                None
            },
            None => None,
        },
    );
    let count = match stats {
        Some(s) => u64_to_dec(s.count),
        None => String::from_str("N/A"),
    };
    let rel_parent = proportion_cell(
        match stats {
            Some(s) => s.duration_relative_to_parent,
            None => None,
        },
    );
    let rel_root = proportion_cell(
        match stats {
            Some(s) => s.duration_relative_to_root,
            None => None,
        },
    );
    let mut name = String::new();
    let depth = active_stack.len();
    let mut i: usize = 0;
    while i < depth
        invariant
            depth == active_stack@.len(),
            i <= depth,
        decreases depth - i,
    {
        if i + 1 == depth {
            if active_stack[i] {
                name.append("\u{251c}\u{2500}\u{2500} ");
            } else {
                name.append("\u{2514}\u{2500}\u{2500} ");
            }
        } else {
            if active_stack[i] {
                name.append("\u{2502}   ");
            } else {
                name.append("    ");
            }
        }
        i = i + 1;
    }
    let path = node.path();
    match path.span_name() {
        Some(n) => name.append(n),
        None => name.append("<root span>"),
    }
    let mut r: Vec<String> = Vec::new();
    r.push(total);
    r.push(average);
    r.push(count);
    r.push(rel_parent);
    r.push(rel_root);
    r.push(name);
    r
}

/// Collects one row per node, depth first, tracking for each ancestor
/// whether it still has more children to come; leaves the stack as found.
fn collect_rows(
    node: SpanTreeNode<'_, Option<DerivedStats>>,
    active_stack: &mut Vec<bool>,
    rows: &mut Vec<Vec<String>>,
)
    ensures
        final(active_stack)@ == old(active_stack)@,
        final(rows)@.len() >= old(rows)@.len(),
        forall|j: int|
            old(rows)@.len() <= j < final(rows)@.len() ==> (#[trigger] final(rows)@[j]).len() == 6,
        forall|j: int| 0 <= j < old(rows)@.len() ==> final(rows)@[j] == old(rows)@[j],
    decreases node.paths_view().len() - node.index_view(),
{
    let row = node_row(node, active_stack);
    rows.push(row);
    let children = node.visit_children();
    let num = children.len();
    let mut idx: usize = 0;
    while idx < num
        invariant
            num == children@.len(),
            idx <= num,
            active_stack@ == old(active_stack)@,
            rows@.len() >= old(rows)@.len(),
            forall|j: int|
                old(rows)@.len() <= j < rows@.len() ==> (#[trigger] rows@[j]).len() == 6,
            forall|j: int| 0 <= j < old(rows)@.len() ==> rows@[j] == old(rows)@[j],
            forall|k: int|
                0 <= k < children@.len() ==> (#[trigger] children@[k]).paths_view()
                    == node.paths_view() && node.index_view() < children@[k].index_view()
                    < subtree_end(
                    node.paths_view(),
                    node.index_view(),
                    node.index_view() + 1,
                ),
        decreases num - idx,
    {
        active_stack.push(idx + 1 != num);
        let child = children[idx];
        proof {
            assert((children@[idx as int]).index_view() > node.index_view());
            lemma_subtree_end_le(
                node.paths_view(),
                node.index_view(),
                node.index_view() + 1,
            );
        }
        collect_rows(child, active_stack, rows);
        let ghost before_pop = active_stack@;
        let popped = active_stack.pop();
        proof {
            assert(active_stack@ =~= old(active_stack)@);
        }
        idx = idx + 1;
    }
}

/// Renders a timing tree as an aligned text table: a header row, a
/// separator, one connector-prefixed row per node in depth-first order, and
/// a closing separator. Column widths are the largest cell width per
/// column; the five numeric columns are right-aligned and the span column
/// left-aligned, each followed by two spaces.
pub fn format_timing_tree(tree: &TimingTree) -> (r: String)
    ensures
        r@.len() > 0,
{
    let mut header: Vec<String> = Vec::new();
    header.push(String::from_str("Total"));
    header.push(String::from_str("Average"));
    header.push(String::from_str("Count"));
    header.push(String::from_str("Rel parent"));
    header.push(String::from_str("Rel root"));
    header.push(String::from_str("Span"));
    proof {
        assert(header@.len() == 6);
    }
    let mut rows: Vec<Vec<String>> = Vec::new();
    match tree.root() {
        Some(root) => {
            let mut active_stack: Vec<bool> = Vec::new();
            collect_rows(root, &mut active_stack, &mut rows);
        },
        None => {},
    }
    // widths: the largest cell per column, header included
    let mut widths: Vec<usize> = Vec::new();
    let mut c: usize = 0;
    while c < 6
        invariant
            header@.len() == 6,
            widths@.len() == c,
            c <= 6,
        decreases 6 - c,
    {
        widths.push(header[c].unicode_len());
        c = c + 1;
    }
    let nrows = rows.len();
    let mut ri: usize = 0;
    while ri < nrows
        invariant
            nrows == rows@.len(),
            ri <= nrows,
            widths@.len() == 6,
            forall|j: int| 0 <= j < rows@.len() ==> (#[trigger] rows@[j]).len() == 6,
        decreases nrows - ri,
    {
        let mut ci: usize = 0;
        while ci < 6
            invariant
                nrows == rows@.len(),
                ri < nrows,
                ci <= 6,
                widths@.len() == 6,
                forall|j: int| 0 <= j < rows@.len() ==> (#[trigger] rows@[j]).len() == 6,
            decreases 6 - ci,
        {
            let w = rows[ri][ci].unicode_len();
            if w > widths[ci] {
                widths.set(ci, w);
            }
            ci = ci + 1;
        }
        ri = ri + 1;
    }
    let mut out = String::new();
    // header line, left-aligned
    let mut ci: usize = 0;
    while ci < 6
        invariant
            header@.len() == 6,
            widths@.len() == 6,
            ci <= 6,
        decreases 6 - ci,
    {
        let cell = header[ci].clone();
        let len = cell.unicode_len();
        out.append(cell.as_str());
        if len < widths[ci] {
            push_spaces(&mut out, widths[ci] - len);
        }
        push_spaces(&mut out, 2);
        ci = ci + 1;
    }
    let header_len = out.unicode_len();
    out.append("\n");
    push_rule(&mut out, header_len);
    // body rows: numeric columns right-aligned, span column left-aligned
    let mut ri: usize = 0;
    while ri < nrows
        invariant
            nrows == rows@.len(),
            ri <= nrows,
            widths@.len() == 6,
            forall|j: int| 0 <= j < rows@.len() ==> (#[trigger] rows@[j]).len() == 6,
        decreases nrows - ri,
    {
        let mut ci: usize = 0;
        while ci < 6
            invariant
                nrows == rows@.len(),
                ri < nrows,
                ci <= 6,
                widths@.len() == 6,
                forall|j: int| 0 <= j < rows@.len() ==> (#[trigger] rows@[j]).len() == 6,
            decreases 6 - ci,
        {
            let cell = rows[ri][ci].clone();
            let len = cell.unicode_len();
            if ci < 5 {
                if len < widths[ci] {
                    push_spaces(&mut out, widths[ci] - len);
                }
                out.append(cell.as_str());
            } else {
                out.append(cell.as_str());
                if len < widths[ci] {
                    push_spaces(&mut out, widths[ci] - len);
                }
            }
            push_spaces(&mut out, 2);
            ci = ci + 1;
        }
        out.append("\n");
        ri = ri + 1;
    }
    push_rule(&mut out, header_len);
    proof {
        reveal_strlit("\n");
    }
    out
}

/// Appends a horizontal rule of `k` box-drawing characters and a newline.
fn push_rule(out: &mut String, k: usize)
    ensures
        final(out)@.len() > old(out)@.len(),
{
    let mut i: usize = 0;
    while i < k
        invariant
            out@.len() >= old(out)@.len(),
        decreases k - i,
    {
        out.append("\u{2550}");
        i = i + 1;
    }
    out.append("\n");
    proof {
        reveal_strlit("\n");
        assert("\n"@.len() == 1);
    }
}

} // verus!

