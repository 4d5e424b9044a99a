//! The text of an image determines the image: two buffers with the same text
//! have the same size and the same pixels.

use crate::ascii::{LINE_FEED, MINUS, SPACE};
use crate::decimal::{
    decimal_int, decimal_nat, digit_byte, lemma_decimal_nat_digits, lemma_decimal_nat_injective,
};
use crate::ppm::{grid_text, header_text, pixel_text, ppm_text, row_text, ImageView, Pixel};
use vstd::prelude::*;

verus! {

/// No byte of `word` is `sep`.
pub open spec fn free_of(word: Seq<u8>, sep: u8) -> bool {
    forall|i: int| 0 <= i < word.len() ==> #[trigger] word[i] != sep
}

/// The text is not empty and its last byte is a line feed.
pub open spec fn ends_line(text: Seq<u8>) -> bool {
    text.len() > 0 && text.last() == LINE_FEED
}

/// A text is cut at its first separator in one way only.
proof fn lemma_split_first(w1: Seq<u8>, rest1: Seq<u8>, w2: Seq<u8>, rest2: Seq<u8>, sep: u8)
    requires
        free_of(w1, sep),
        free_of(w2, sep),
        w1.push(sep) + rest1 == w2.push(sep) + rest2,
    ensures
        w1 == w2,
        rest1 == rest2,
{
    let t1 = w1.push(sep) + rest1;
    let t2 = w2.push(sep) + rest2;
    if w1.len() < w2.len() {
        assert(t1[w1.len() as int] == sep);
        assert(t2[w1.len() as int] == w2[w1.len() as int]);
    }
    if w2.len() < w1.len() {
        assert(t2[w2.len() as int] == sep);
        assert(t1[w2.len() as int] == w1[w2.len() as int]);
    }
    assert(w1.len() == w2.len());
    assert forall|i: int| 0 <= i < w1.len() implies w1[i] == w2[i] by {
        assert(t1[i] == w1[i]);
        assert(t2[i] == w2[i]);
    }
    assert(w1 =~= w2);
    assert(t1.len() == t2.len());
    assert forall|i: int| 0 <= i < rest1.len() implies rest1[i] == rest2[i] by {
        assert(t1[w1.len() + 1 + i] == rest1[i]);
        assert(t2[w2.len() + 1 + i] == rest2[i]);
    }
    assert(rest1 =~= rest2);
}

/// A text is cut at its last separator in one way only.
proof fn lemma_split_last(head1: Seq<u8>, w1: Seq<u8>, head2: Seq<u8>, w2: Seq<u8>, sep: u8)
    requires
        free_of(w1, sep),
        free_of(w2, sep),
        head1.push(sep) + w1 == head2.push(sep) + w2,
    ensures
        w1 == w2,
        head1 == head2,
{
    let t1 = head1.push(sep) + w1;
    let t2 = head2.push(sep) + w2;
    assert(t1.len() == t2.len());
    if w1.len() < w2.len() {
        let at = head1.len() as int;
        assert(t1[at] == sep);
        assert(t2[at] == w2[at - head2.len() - 1]);
    }
    if w2.len() < w1.len() {
        let at = head2.len() as int;
        assert(t2[at] == sep);
        assert(t1[at] == w1[at - head1.len() - 1]);
    }
    assert(w1.len() == w2.len());
    assert forall|i: int| 0 <= i < w1.len() implies w1[i] == w2[i] by {
        assert(t1[head1.len() + 1 + i] == w1[i]);
        assert(t2[head2.len() + 1 + i] == w2[i]);
    }
    assert(w1 =~= w2);
    assert forall|i: int| 0 <= i < head1.len() implies head1[i] == head2[i] by {
        assert(t1[i] == head1[i]);
        assert(t2[i] == head2[i]);
    }
    assert(head1 =~= head2);
}

/// The text of an integer holds a minus sign and digits only, the sign in
/// front and only for a negative number.
proof fn lemma_decimal_int_bytes(v: int)
    ensures
        decimal_int(v).len() >= 1,
        free_of(decimal_int(v), SPACE),
        free_of(decimal_int(v), LINE_FEED),
        decimal_int(v)[0] == MINUS <==> v < 0,
{
    if v < 0 {
        lemma_decimal_nat_digits((-v) as nat);
        let digits = decimal_nat((-v) as nat);
        assert forall|i: int| 0 <= i < decimal_int(v).len() implies {
            &&& #[trigger] decimal_int(v)[i] != SPACE
            &&& decimal_int(v)[i] != LINE_FEED
        } by {
            if i > 0 {
                assert(decimal_int(v)[i] == digits[i - 1]);
            }
        }
    } else {
        lemma_decimal_nat_digits(v as nat);
        assert(decimal_nat(v as nat).len() >= 1);
    }
}

/// Different integers have different texts.
pub proof fn lemma_decimal_int_injective(a: int, b: int)
    requires
        decimal_int(a) == decimal_int(b),
    ensures
        a == b,
{
    lemma_decimal_int_bytes(a);
    lemma_decimal_int_bytes(b);
    if a < 0 {
        let da = decimal_nat((-a) as nat);
        let db = decimal_nat((-b) as nat);
        assert(da =~= decimal_int(a).subrange(1, decimal_int(a).len() as int));
        assert(db =~= decimal_int(b).subrange(1, decimal_int(b).len() as int));
        lemma_decimal_nat_injective((-a) as nat, (-b) as nat);
    } else {
        lemma_decimal_nat_injective(a as nat, b as nat);
    }
}

/// Two texts that end in a pixel's line, after whole lines, end in the same
/// pixel and agree before it.
proof fn lemma_last_pixel(q1: Seq<u8>, pa: Pixel, q2: Seq<u8>, pb: Pixel)
    requires
        ends_line(q1),
        ends_line(q2),
        q1 + pixel_text(pa) == q2 + pixel_text(pb),
    ensures
        pa == pb,
        q1 == q2,
{
    let r1 = decimal_int(pa.r as int);
    let g1 = decimal_int(pa.g as int);
    let b1 = decimal_int(pa.b as int);
    let r2 = decimal_int(pb.r as int);
    let g2 = decimal_int(pb.g as int);
    let b2 = decimal_int(pb.b as int);
    lemma_decimal_int_bytes(pa.r as int);
    lemma_decimal_int_bytes(pa.g as int);
    lemma_decimal_int_bytes(pa.b as int);
    lemma_decimal_int_bytes(pb.r as int);
    lemma_decimal_int_bytes(pb.g as int);
    lemma_decimal_int_bytes(pb.b as int);
    let t1 = q1 + pixel_text(pa);
    let t2 = q2 + pixel_text(pb);
    let body1 = ((q1 + r1).push(SPACE) + g1).push(SPACE) + b1;
    let body2 = ((q2 + r2).push(SPACE) + g2).push(SPACE) + b2;
    assert(t1.drop_last() =~= body1);
    assert(t2.drop_last() =~= body2);
    lemma_split_last((q1 + r1).push(SPACE) + g1, b1, (q2 + r2).push(SPACE) + g2, b2, SPACE);
    lemma_split_last(q1 + r1, g1, q2 + r2, g2, SPACE);
    assert(q1 + r1 =~= q1.drop_last().push(LINE_FEED) + r1);
    assert(q2 + r2 =~= q2.drop_last().push(LINE_FEED) + r2);
    lemma_split_last(q1.drop_last(), r1, q2.drop_last(), r2, LINE_FEED);
    assert(q1 =~= q1.drop_last().push(LINE_FEED));
    assert(q2 =~= q2.drop_last().push(LINE_FEED));
    lemma_decimal_int_injective(pa.r as int, pb.r as int);
    lemma_decimal_int_injective(pa.g as int, pb.g as int);
    lemma_decimal_int_injective(pa.b as int, pb.b as int);
}

/// The text of a row is empty or ends a line.
proof fn lemma_row_text_ends_line(row: Seq<Pixel>)
    ensures
        row.len() == 0 ==> row_text(row).len() == 0,
        row.len() > 0 ==> ends_line(row_text(row)),
{
    if row.len() > 0 {
        let last = pixel_text(row.last());
        assert(last.last() == LINE_FEED);
        assert(row_text(row).last() == last.last());
    }
}

/// The text of a grid is empty or ends a line.
proof fn lemma_grid_text_ends_line(rows: Seq<Seq<Pixel>>)
    ensures
        grid_text(rows).len() == 0 || ends_line(grid_text(rows)),
    decreases rows.len(),
{
    if rows.len() > 0 {
        lemma_grid_text_ends_line(rows.drop_last());
        lemma_row_text_ends_line(rows.last());
        let above = grid_text(rows.drop_last());
        let below = row_text(rows.last());
        if below.len() > 0 {
            assert((above + below).last() == below.last());
        } else {
            assert(above + below =~= above);
        }
    }
}

/// Two texts that end in rows of the same length, after whole lines, end in
/// the same row and agree before it.
proof fn lemma_last_row(q1: Seq<u8>, row1: Seq<Pixel>, q2: Seq<u8>, row2: Seq<Pixel>)
    requires
        ends_line(q1),
        ends_line(q2),
        row1.len() == row2.len(),
        q1 + row_text(row1) == q2 + row_text(row2),
    ensures
        row1 == row2,
        q1 == q2,
    decreases row1.len(),
{
    if row1.len() == 0 {
        assert(q1 + row_text(row1) =~= q1);
        assert(q2 + row_text(row2) =~= q2);
        assert(row1 =~= row2);
    } else {
        let left1 = q1 + row_text(row1.drop_last());
        let left2 = q2 + row_text(row2.drop_last());
        lemma_row_text_ends_line(row1.drop_last());
        lemma_row_text_ends_line(row2.drop_last());
        assert(ends_line(left1)) by {
            if row1.len() == 1 {
                assert(left1 =~= q1);
            } else {
                assert(left1.last() == row_text(row1.drop_last()).last());
            }
        }
        assert(ends_line(left2)) by {
            if row2.len() == 1 {
                assert(left2 =~= q2);
            } else {
                assert(left2.last() == row_text(row2.drop_last()).last());
            }
        }
        assert(left1 + pixel_text(row1.last()) =~= q1 + row_text(row1));
        assert(left2 + pixel_text(row2.last()) =~= q2 + row_text(row2));
        lemma_last_pixel(left1, row1.last(), left2, row2.last());
        lemma_last_row(q1, row1.drop_last(), q2, row2.drop_last());
        assert(row1 =~= row1.drop_last().push(row1.last()));
        assert(row2 =~= row2.drop_last().push(row2.last()));
    }
}

/// Two texts that end in grids of the same size, after whole lines, end in
/// the same grid and agree before it.
proof fn lemma_last_grid(
    q1: Seq<u8>,
    rows1: Seq<Seq<Pixel>>,
    q2: Seq<u8>,
    rows2: Seq<Seq<Pixel>>,
    width: nat,
)
    requires
        ends_line(q1),
        ends_line(q2),
        rows1.len() == rows2.len(),
        forall|i: int| 0 <= i < rows1.len() ==> (#[trigger] rows1[i]).len() == width,
        forall|i: int| 0 <= i < rows2.len() ==> (#[trigger] rows2[i]).len() == width,
        q1 + grid_text(rows1) == q2 + grid_text(rows2),
    ensures
        rows1 == rows2,
        q1 == q2,
    decreases rows1.len(),
{
    if rows1.len() == 0 {
        assert(q1 + grid_text(rows1) =~= q1);
        assert(q2 + grid_text(rows2) =~= q2);
        assert(rows1 =~= rows2);
    } else {
        let above1 = rows1.drop_last();
        let above2 = rows2.drop_last();
        let left1 = q1 + grid_text(above1);
        let left2 = q2 + grid_text(above2);
        lemma_grid_text_ends_line(above1);
        lemma_grid_text_ends_line(above2);
        assert(ends_line(left1)) by {
            if grid_text(above1).len() == 0 {
                assert(left1 =~= q1);
            } else {
                assert(left1.last() == grid_text(above1).last());
            }
        }
        assert(ends_line(left2)) by {
            if grid_text(above2).len() == 0 {
                assert(left2 =~= q2);
            } else {
                assert(left2.last() == grid_text(above2).last());
            }
        }
        assert(left1 + row_text(rows1.last()) =~= q1 + grid_text(rows1));
        assert(left2 + row_text(rows2.last()) =~= q2 + grid_text(rows2));
        lemma_last_row(left1, rows1.last(), left2, rows2.last());
        lemma_last_grid(q1, above1, q2, above2, width);
        assert(rows1 =~= above1.push(rows1.last()));
        assert(rows2 =~= above2.push(rows2.last()));
    }
}

/// Two headers followed by anything agree only where the sizes agree, and
/// then what follows them agrees too.
proof fn lemma_header_unique(w1: nat, h1: nat, body1: Seq<u8>, w2: nat, h2: nat, body2: Seq<u8>)
    requires
        header_text(w1, h1) + body1 == header_text(w2, h2) + body2,
    ensures
        w1 == w2,
        h1 == h2,
        body1 == body2,
{
    let t1 = header_text(w1, h1) + body1;
    let t2 = header_text(w2, h2) + body2;
    let depth = seq![digit_byte(2), digit_byte(5), digit_byte(5), LINE_FEED];
    let dw1 = decimal_nat(w1);
    let dw2 = decimal_nat(w2);
    let dh1 = decimal_nat(h1);
    let dh2 = decimal_nat(h2);
    lemma_decimal_nat_digits(w1);
    lemma_decimal_nat_digits(w2);
    lemma_decimal_nat_digits(h1);
    lemma_decimal_nat_digits(h2);
    let size1 = dh1.push(LINE_FEED) + (depth + body1);
    let size2 = dh2.push(LINE_FEED) + (depth + body2);
    assert(t1.subrange(3, t1.len() as int) =~= dw1.push(SPACE) + size1);
    assert(t2.subrange(3, t2.len() as int) =~= dw2.push(SPACE) + size2);
    lemma_split_first(dw1, size1, dw2, size2, SPACE);
    lemma_split_first(dh1, depth + body1, dh2, depth + body2, LINE_FEED);
    lemma_decimal_nat_injective(w1, w2);
    lemma_decimal_nat_injective(h1, h2);
    assert(body1 =~= (depth + body1).subrange(4, (depth + body1).len() as int));
    assert(body2 =~= (depth + body2).subrange(4, (depth + body2).len() as int));
}

/// Two images whose sizes agree with their grids and whose texts are the same
/// are the same image.
pub proof fn lemma_ppm_text_injective(a: ImageView, b: ImageView)
    requires
        a.wf(),
        b.wf(),
        ppm_text(a) == ppm_text(b),
    ensures
        a == b,
{
    lemma_header_unique(
        a.width,
        a.height,
        grid_text(a.rows),
        b.width,
        b.height,
        grid_text(b.rows),
    );
    let line = seq![LINE_FEED];
    lemma_last_grid(line, a.rows, line, b.rows, a.width);
}

} // verus!
