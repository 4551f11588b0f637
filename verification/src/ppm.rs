//! Text encoding of the plain PPM ("P3") image format that the renderers write:
//! a header with the image size, then one line of three decimal channel values
//! per pixel.
use vstd::prelude::*;

verus! {

/// ASCII code of the decimal digit `d` (`d < 10`).
pub open spec fn digit_byte(d: nat) -> u8
    recommends
        d < 10,
{
    (48 + d) as u8
}

/// Decimal digits of `n`, most significant first, without leading zeros
/// (`0` is the single digit `"0"`).
pub open spec fn decimal_nat(n: nat) -> Seq<u8>
    decreases n,
{
    if n < 10 {
        seq![digit_byte(n)]
    } else {
        decimal_nat(n / 10).push(digit_byte(n % 10))
    }
}

/// Decimal text of the integer `n`, as Rust's `{}` formatting writes it: a `-`
/// before the digits of a negative number.
pub open spec fn decimal_int(n: int) -> Seq<u8> {
    if n < 0 {
        seq![45u8] + decimal_nat((-n) as nat)
    } else {
        decimal_nat(n as nat)
    }
}

/// Text of the PPM header for a `width` by `height` image whose channels go up
/// to 255, with `sep` between the two sizes, followed by an empty line.
pub open spec fn header_text(width: int, height: int, sep: Seq<u8>) -> Seq<u8> {
    seq![80u8, 51u8, 10u8] + decimal_int(width) + sep + decimal_int(height) + seq![
        10u8,
        50u8,
        53u8,
        53u8,
        10u8,
        10u8,
    ]
}

/// The separator `" "` between the two sizes of the usual header.
pub open spec fn space_sep() -> Seq<u8> {
    seq![32u8]
}

/// The separator `"' '"` that the first-chapter renderers print between the sizes.
pub open spec fn quoted_space_sep() -> Seq<u8> {
    seq![39u8, 32u8, 39u8]
}

/// Text of one pixel: the three channel values separated by spaces, then a newline.
pub open spec fn pixel_text(r: int, g: int, b: int) -> Seq<u8> {
    decimal_int(r) + seq![32u8] + decimal_int(g) + seq![32u8] + decimal_int(b) + seq![10u8]
}

/// Appends the decimal digits of `n` to `out`.
pub fn push_decimal_u64(out: &mut Vec<u8>, n: u64)
    ensures
        final(out)@ == old(out)@ + decimal_nat(n as nat),
    decreases n,
{
    if n >= 10 {
        push_decimal_u64(out, n / 10);
    }
    let d: u64 = n % 10;
    out.push((48 + d) as u8);
    proof {
        assert(decimal_nat(n as nat) == if n < 10 {
            seq![digit_byte(n as nat)]
        } else {
            decimal_nat((n / 10) as nat).push(digit_byte((n % 10) as nat))
        });
        if n < 10 {
            assert(old(out)@ + seq![digit_byte(n as nat)] =~= old(out)@.push((48 + d) as u8));
        } else {
            assert(old(out)@ + decimal_nat((n / 10) as nat).push(digit_byte(d as nat)) =~= (old(
                out,
            )@ + decimal_nat((n / 10) as nat)).push((48 + d) as u8));
        }
    }
}

/// Appends the decimal text of `n` to `out`, with a leading `-` when it is negative.
pub fn push_decimal_i64(out: &mut Vec<u8>, n: i64)
    ensures
        final(out)@ == old(out)@ + decimal_int(n as int),
{
    if n < 0 {
        out.push(45u8);
        let magnitude: u64 = if n == i64::MIN {
            9223372036854775808u64
        } else {
            (-n) as u64
        };
        push_decimal_u64(out, magnitude);
        assert(out@ =~= old(out)@ + (seq![45u8] + decimal_nat(magnitude as nat)));
    } else {
        push_decimal_u64(out, n as u64);
    }
}

/// Decimal text of `n`.
pub fn decimal(n: i64) -> (text: Vec<u8>)
    ensures
        text@ == decimal_int(n as int),
{
    let mut out: Vec<u8> = Vec::new();
    push_decimal_i64(&mut out, n);
    assert(out@ =~= Seq::<u8>::empty() + decimal_int(n as int));
    out
}

fn push_all(out: &mut Vec<u8>, tail: &[u8])
    ensures
        final(out)@ == old(out)@ + tail@,
{
    let mut k: usize = 0;
    while k < tail.len()
        invariant
            k <= tail@.len(),
            out@ == old(out)@ + tail@.subrange(0, k as int),
        decreases tail@.len() - k,
    {
        out.push(tail[k]);
        k = k + 1;
        assert(out@ =~= old(out)@ + tail@.subrange(0, k as int));
    }
    assert(tail@.subrange(0, tail@.len() as int) =~= tail@);
}

fn header_with(width: i32, height: i32, sep: &[u8]) -> (text: Vec<u8>)
    ensures
        text@ == header_text(width as int, height as int, sep@),
{
    let mut out: Vec<u8> = Vec::new();
    out.push(80u8);
    out.push(51u8);
    out.push(10u8);
    push_decimal_i64(&mut out, width as i64);
    push_all(&mut out, sep);
    push_decimal_i64(&mut out, height as i64);
    out.push(10u8);
    out.push(50u8);
    out.push(53u8);
    out.push(53u8);
    out.push(10u8);
    out.push(10u8);
    assert(out@ =~= header_text(width as int, height as int, sep@));
    out
}

/// The header `"P3\n{width} {height}\n255\n"` that the renderers print with
/// `println!`, including the newline that `println!` adds.
pub fn ppm_header(width: i32, height: i32) -> (text: Vec<u8>)
    ensures
        text@ == header_text(width as int, height as int, space_sep()),
{
    let sep: [u8; 1] = [32u8];
    assert(sep@ =~= space_sep());
    header_with(width, height, &sep)
}

/// The header `"P3\n{width}' '{height}\n255\n"` that the first-chapter
/// renderers print (their format string holds `' '` between the sizes),
/// including the newline that `println!` adds.
pub fn ppm_header_quoted(width: i32, height: i32) -> (text: Vec<u8>)
    ensures
        text@ == header_text(width as int, height as int, quoted_space_sep()),
{
    let sep: [u8; 3] = [39u8, 32u8, 39u8];
    assert(sep@ =~= quoted_space_sep());
    header_with(width, height, &sep)
}

/// The line `"{r} {g} {b}\n"` that writes one pixel.
pub fn pixel_line(r: i32, g: i32, b: i32) -> (text: Vec<u8>)
    ensures
        text@ == pixel_text(r as int, g as int, b as int),
{
    let mut out: Vec<u8> = Vec::new();
    push_decimal_i64(&mut out, r as i64);
    out.push(32u8);
    push_decimal_i64(&mut out, g as i64);
    out.push(32u8);
    push_decimal_i64(&mut out, b as i64);
    out.push(10u8);
    assert(out@ =~= pixel_text(r as int, g as int, b as int));
    out
}

/// The number that the decimal digits `s` stand for (most significant first).
pub open spec fn digits_value(s: Seq<u8>) -> int
    decreases s.len(),
{
    if s.len() == 0 {
        0
    } else {
        digits_value(s.drop_last()) * 10 + (s.last() - 48)
    }
}

/// Decimal text is read back as the number it was written from, and consists
/// of digits only: a reader of the image gets the channel values that were
/// written.
pub proof fn lemma_decimal_reads_back(n: nat)
    ensures
        digits_value(decimal_nat(n)) == n,
        decimal_nat(n).len() >= 1,
        forall|k: int| 0 <= k < decimal_nat(n).len() ==> 48 <= #[trigger] decimal_nat(n)[k] <= 57,
    decreases n,
{
    if n >= 10 {
        lemma_decimal_reads_back(n / 10);
        let prefix = decimal_nat(n / 10);
        assert(decimal_nat(n).drop_last() =~= prefix);
        assert(decimal_nat(n).last() == digit_byte(n % 10));
        assert(digit_byte(n % 10) - 48 == n % 10);
        vstd::arithmetic::div_mod::lemma_fundamental_div_mod(n as int, 10);
        assert(digits_value(decimal_nat(n)) == digits_value(prefix) * 10 + (decimal_nat(n).last() - 48));
        assert(digits_value(prefix) * 10 + n % 10 == n) by (nonlinear_arith)
            requires
                digits_value(prefix) == n / 10,
                n == 10 * (n / 10) + n % 10,
        ;
        assert forall|k: int| 0 <= k < decimal_nat(n).len() implies 48 <= #[trigger] decimal_nat(
            n,
        )[k] <= 57 by {
            if k < prefix.len() {
                assert(decimal_nat(n)[k] == prefix[k]);
            }
        }
    } else {
        assert(decimal_nat(n).drop_last() =~= Seq::<u8>::empty());
        assert(digits_value(decimal_nat(n)) == digits_value(Seq::<u8>::empty()) * 10 + (decimal_nat(n).last() - 48));
    }
}

/// A header names the width first and the height after the separator, whatever
/// the separator is: after `"P3\n"`, the digits up to the separator read back as
/// the width, the digits after it read back as the height, and `"\n255\n\n"`
/// ends the text.
pub proof fn lemma_header_reads_back(width: nat, height: nat, sep: Seq<u8>)
    ensures
        ({
            let t = header_text(width as int, height as int, sep);
            let lw = decimal_nat(width).len() as int;
            let lh = decimal_nat(height).len() as int;
            let at_h = 3 + lw + sep.len();
            &&& t.len() == at_h + lh + 6
            &&& t.subrange(0, 3) == seq![80u8, 51u8, 10u8]
            &&& digits_value(t.subrange(3, 3 + lw)) == width
            &&& t.subrange(3 + lw, at_h) == sep
            &&& digits_value(t.subrange(at_h, at_h + lh)) == height
            &&& t.subrange(at_h + lh, at_h + lh + 6) == seq![10u8, 50u8, 53u8, 53u8, 10u8, 10u8]
        }),
{
    lemma_decimal_reads_back(width);
    lemma_decimal_reads_back(height);
    let t = header_text(width as int, height as int, sep);
    let dw = decimal_nat(width);
    let dh = decimal_nat(height);
    let lw = dw.len() as int;
    let lh = dh.len() as int;
    let at_h = 3 + lw + sep.len();
    let tail = seq![10u8, 50u8, 53u8, 53u8, 10u8, 10u8];
    assert(t == seq![80u8, 51u8, 10u8] + dw + sep + dh + tail);
    assert(t.subrange(0, 3) =~= seq![80u8, 51u8, 10u8]);
    assert(t.subrange(3, 3 + lw) =~= dw);
    assert(t.subrange(3 + lw, at_h) =~= sep);
    assert(t.subrange(at_h, at_h + lh) =~= dh);
    assert(t.subrange(at_h + lh, at_h + lh + 6) =~= tail);
}

/// Two headers for the same sizes differ only in their separators: they agree
/// up to the separator (`"P3\n"` and the width) and after it (the height and
/// `"\n255\n\n"`).
pub proof fn lemma_header_separator_only(width: int, height: int, a: Seq<u8>, b: Seq<u8>)
    ensures
        ({
            let ta = header_text(width, height, a);
            let tb = header_text(width, height, b);
            let lw = decimal_int(width).len() as int;
            &&& ta.len() - a.len() == tb.len() - b.len()
            &&& ta.subrange(0, 3 + lw) == tb.subrange(0, 3 + lw)
            &&& ta.subrange(3 + lw + a.len(), ta.len() as int) == tb.subrange(
                3 + lw + b.len(),
                tb.len() as int,
            )
        }),
{
    let head = seq![80u8, 51u8, 10u8] + decimal_int(width);
    let rest = decimal_int(height) + seq![10u8, 50u8, 53u8, 53u8, 10u8, 10u8];
    let ta = header_text(width, height, a);
    let tb = header_text(width, height, b);
    assert(ta =~= head + a + rest);
    assert(tb =~= head + b + rest);
    assert(ta.subrange(0, head.len() as int) =~= head);
    assert(tb.subrange(0, head.len() as int) =~= head);
    assert(ta.subrange((head.len() + a.len()) as int, ta.len() as int) =~= rest);
    assert(tb.subrange((head.len() + b.len()) as int, tb.len() as int) =~= rest);
}

} // verus!
