//! The connection-cost matrix: a whitespace-separated table of integers turned
//! into a dense array of 16-bit costs.
use crate::error::ParsingError;
use crate::le::{i16_bytes, le_i16};
use vstd::prelude::*;

verus! {

/// A byte that separates fields: ASCII white space.
pub open spec fn is_space(c: u8) -> bool {
    c == 9 || c == 10 || c == 11 || c == 12 || c == 13 || c == 32
}

/// A token that has ended: nothing when it is empty.
pub open spec fn close(line: Seq<Seq<u8>>, tok: Seq<u8>) -> Seq<Seq<u8>> {
    if tok.len() == 0 {
        line
    } else {
        line.push(tok)
    }
}

/// The state after the first `n` bytes of `t`: finished lines, the finished
/// fields of the current line, and the field being read.
pub open spec fn scan(t: Seq<u8>, n: int) -> (Seq<Seq<Seq<u8>>>, Seq<Seq<u8>>, Seq<u8>)
    decreases n,
{
    if n <= 0 {
        (Seq::empty(), Seq::empty(), Seq::empty())
    } else {
        let (ls, l, k) = scan(t, n - 1);
        let c = t[n - 1];
        if c == 10 {
            (ls.push(close(l, k)), Seq::empty(), Seq::empty())
        } else if is_space(c) {
            (ls, close(l, k), Seq::empty())
        } else {
            (ls, l, k.push(c))
        }
    }
}

/// The fields of each line of `t`; a line ends at a newline byte.
pub open spec fn fields_of(t: Seq<u8>) -> Seq<Seq<Seq<u8>>> {
    let (ls, l, k) = scan(t, t.len() as int);
    ls.push(close(l, k))
}

pub open spec fn is_digit(c: u8) -> bool {
    48 <= c <= 57
}

/// The value of a run of decimal digits.
pub open spec fn digits_value(d: Seq<u8>) -> int
    decreases d.len(),
{
    if d.len() == 0 {
        0
    } else {
        digits_value(d.drop_last()) * 10 + (d.last() - 48)
    }
}

/// A non-empty run of decimal digits.
pub open spec fn all_digits(d: Seq<u8>) -> bool {
    d.len() > 0 && forall|i: int| 0 <= i < d.len() ==> is_digit(#[trigger] d[i])
}

/// `d` without its leading sign, if it has one.
pub open spec fn unsigned_part(d: Seq<u8>) -> Seq<u8> {
    if d.len() > 0 && (d[0] == 45 || d[0] == 43) {
        d.drop_first()
    } else {
        d
    }
}

/// The value of `d` as a signed decimal integer: an optional `+` or `-`, then
/// one or more digits; `None` when it is not of that form or out of `i32`.
pub open spec fn parse_i32(d: Seq<u8>) -> Option<i32> {
    let digits = unsigned_part(d);
    let v = if d.len() > 0 && d[0] == 45 {
        -digits_value(digits)
    } else {
        digits_value(digits)
    };
    if all_digits(digits) && i32::MIN <= v <= i32::MAX {
        Some(v as i32)
    } else {
        None
    }
}

/// Every field of the table is an `i32`.
pub open spec fn all_fields_parse(t: Seq<Seq<Seq<u8>>>) -> bool {
    forall|i: int, j: int|
        0 <= i < t.len() && 0 <= j < t[i].len() ==> #[trigger] parse_i32(t[i][j]) is Some
}

/// The integers of the table, line by line.
pub open spec fn values_of(t: Seq<Seq<Seq<u8>>>) -> Seq<Seq<int>> {
    t.map_values(|l: Seq<Seq<u8>>| l.map_values(|f: Seq<u8>| parse_i32(f).unwrap() as int))
}

/// A line after the header is blank, or names a cell inside the sizes.
pub open spec fn cell_line_ok(l: Seq<int>, forward: int, backward: int) -> bool {
    l.len() == 0 || (l.len() >= 3 && 0 <= l[0] < forward && 0 <= l[1] < backward)
}

/// The cell that a line names.
pub open spec fn cell_of(l: Seq<int>, backward: int) -> int {
    2 + l[1] + l[0] * backward
}

/// The costs after the lines `1..n` of the table have been applied to a matrix
/// filled with `i16::MAX` under its two sizes; a later line wins.
pub open spec fn costs_after(v: Seq<Seq<int>>, forward: int, backward: int, n: int) -> Seq<i16>
    decreases n,
{
    if n <= 1 {
        seq![forward as i16, backward as i16] + Seq::new(
            (forward * backward) as nat,
            |i: int| i16::MAX,
        )
    } else {
        let prev = costs_after(v, forward, backward, n - 1);
        let l = v[n - 1];
        if l.len() == 0 {
            prev
        } else {
            prev.update(cell_of(l, backward), l[2] as i16)
        }
    }
}

/// The header of a well-formed table: two sizes from 0 to `i16::MAX`.
pub open spec fn header_ok(v: Seq<Seq<int>>) -> bool {
    v.len() > 0 && v[0].len() >= 2 && 0 <= v[0][0] <= i16::MAX && 0 <= v[0][1] <= i16::MAX
}

/// The matrix of a well-formed table.
pub open spec fn matrix_of(v: Seq<Seq<int>>) -> Seq<i16> {
    costs_after(v, v[0][0], v[0][1], v.len() as int)
}

/// The table is well formed: a header, then lines that name cells inside it.
pub open spec fn table_ok(v: Seq<Seq<int>>) -> bool {
    &&& header_ok(v)
    &&& forall|i: int| 1 <= i < v.len() ==> cell_line_ok(#[trigger] v[i], v[0][0], v[0][1])
}

/// The bytes of a cost matrix: each cost as two little-endian bytes.
pub open spec fn costs_bytes(c: Seq<i16>) -> Seq<u8>
    decreases c.len(),
{
    if c.len() == 0 {
        Seq::empty()
    } else {
        costs_bytes(c.drop_last()) + le_i16(c.last())
    }
}

fn push_field(line: &mut Vec<Vec<u8>>, tok: Vec<u8>)
    ensures
        final(line).deep_view() == old(line).deep_view().push(tok@),
{
    let ghost before = line@;
    line.push(tok);
    assert(tok.deep_view() =~= tok@);
    assert forall|j: int| 0 <= j < before.len() implies line.deep_view()[j] == old(line).deep_view()[j] by {
        assert(line@[j] == before[j]);
    }
    assert(line.deep_view() =~= old(line).deep_view().push(tok@));
}

/// Splits the text into lines at newline bytes, and each line into its fields
/// at runs of white space.
pub fn split_fields(t: &[u8]) -> (r: Vec<Vec<Vec<u8>>>)
    ensures
        r.deep_view() == fields_of(t@),
{
    let mut lines: Vec<Vec<Vec<u8>>> = Vec::new();
    let mut line: Vec<Vec<u8>> = Vec::new();
    let mut tok: Vec<u8> = Vec::new();
    let mut i: usize = 0;
    while i < t.len()
        invariant
            0 <= i <= t.len(),
            (lines.deep_view(), line.deep_view(), tok@) == scan(t@, i as int),
        decreases t.len() - i,
    {
        let c = t[i];
        if c == 10 || c == 9 || c == 11 || c == 12 || c == 13 || c == 32 {
            if tok.len() > 0 {
                push_field(&mut line, tok);
                tok = Vec::new();
            }
            if c == 10 {
                let ghost before = lines.deep_view();
                let mut done: Vec<Vec<u8>> = Vec::new();
                std::mem::swap(&mut done, &mut line);
                lines.push(done);
                assert(lines.deep_view() =~= before.push(done.deep_view()));
            }
        } else {
            tok.push(c);
        }
        i = i + 1;
    }
    if tok.len() > 0 {
        push_field(&mut line, tok);
    }
    let ghost before = lines.deep_view();
    lines.push(line);
    assert(lines.deep_view() =~= before.push(line.deep_view()));
    assert(t@.subrange(0, t@.len() as int) =~= t@);
    lines
}

/// A bound above every magnitude that `i32` can hold.
const CAP: u64 = 2147483649;

/// Reads a field as a signed decimal `i32`: an optional `+` or `-`, then
/// digits only.
pub fn parse_field(d: &Vec<u8>) -> (r: Option<i32>)
    ensures
        r == parse_i32(d@),
{
    let n = d.len();
    let neg = n > 0 && d[0] == 45;
    let start: usize = if n > 0 && (d[0] == 45 || d[0] == 43) {
        1
    } else {
        0
    };
    let ghost digits = d@.subrange(start as int, n as int);
    assert(digits =~= unsigned_part(d@));
    if start >= n {
        return None;
    }
    let mut acc: u64 = 0;
    let mut i: usize = start;
    while i < n
        invariant
            start <= i <= n,
            n == d@.len(),
            digits == d@.subrange(start as int, n as int),
            digits == unsigned_part(d@),
            neg == (n > 0 && d@[0] == 45),
            forall|j: int| start <= j < i ==> is_digit(#[trigger] d@[j]),
            acc <= CAP,
            digits_value(d@.subrange(start as int, i as int)) >= 0,
            acc == CAP ==> digits_value(d@.subrange(start as int, i as int)) >= CAP,
            acc < CAP ==> digits_value(d@.subrange(start as int, i as int)) == acc,
        decreases n - i,
    {
        let c = d[i];
        if c < 48 || c > 57 {
            assert(digits[i - start] == c);
            assert(!is_digit(digits[i - start]));
            assert(!all_digits(digits));
            return None;
        }
        let ghost prev = digits_value(d@.subrange(start as int, i as int));
        assert(d@.subrange(start as int, i + 1).drop_last() =~= d@.subrange(start as int, i as int));
        assert(digits_value(d@.subrange(start as int, i + 1)) == prev * 10 + (c - 48));
        acc = acc * 10 + (c - 48) as u64;
        if acc > CAP {
            acc = CAP;
        }
        i = i + 1;
    }
    assert(d@.subrange(start as int, n as int) == digits);
    assert(forall|j: int| 0 <= j < digits.len() ==> #[trigger] digits[j] == d@[start + j]);
    if neg {
        if acc > 2147483648 {
            None
        } else {
            Some((0 - acc as i64) as i32)
        }
    } else {
        if acc > 2147483647 {
            None
        } else {
            Some(acc as i32)
        }
    }
}

/// The integers of a parsed table, line by line.
pub open spec fn ints_of(v: Seq<Vec<i32>>) -> Seq<Seq<int>> {
    v.map_values(|l: Vec<i32>| l@.map_values(|x: i32| x as int))
}

/// Reads every field of the text as an `i32`, line by line.
pub fn parse_table(t: &[u8]) -> (r: Result<Vec<Vec<i32>>, ParsingError>)
    ensures
        match r {
            Ok(v) => all_fields_parse(fields_of(t@)) && ints_of(v@) == values_of(fields_of(t@)),
            Err(e) => !all_fields_parse(fields_of(t@)) && e is ParseIntError,
        },
{
    let lines = split_fields(t);
    let ghost f = fields_of(t@);
    let mut out: Vec<Vec<i32>> = Vec::new();
    let mut i: usize = 0;
    while i < lines.len()
        invariant
            0 <= i <= lines.len(),
            f == fields_of(t@),
            lines.deep_view() == f,
            out@.len() == i,
            forall|a: int, b: int| 0 <= a < i && 0 <= b < f[a].len() ==> #[trigger] parse_i32(f[a][b]) is Some,
            forall|a: int| 0 <= a < i ==> (#[trigger] out@[a])@.map_values(|x: i32| x as int) == values_of(f)[a],
        decreases lines.len() - i,
    {
        let line = &lines[i];
        assert(line.deep_view() == f[i as int]);
        let mut vals: Vec<i32> = Vec::new();
        let mut j: usize = 0;
        while j < line.len()
            invariant
                0 <= j <= line.len(),
                0 <= i < lines.len(),
                f == fields_of(t@),
                lines.deep_view() == f,
                line.deep_view() == f[i as int],
                vals@.len() == j,
                forall|b: int| 0 <= b < j ==> #[trigger] parse_i32(f[i as int][b]) is Some,
                forall|b: int| 0 <= b < j ==> #[trigger] vals@[b] == parse_i32(f[i as int][b]).unwrap(),
            decreases line.len() - j,
        {
            assert(line[j as int]@ == f[i as int][j as int]);
            match parse_field(&line[j]) {
                Some(x) => {
                    vals.push(x);
                },
                None => {
                    assert(parse_i32(f[i as int][j as int]) is None);
                    assert(!all_fields_parse(f));
                    return Err(ParsingError::ParseIntError);
                },
            }
            j = j + 1;
        }
        assert(vals@.map_values(|x: i32| x as int) =~= values_of(f)[i as int]);
        out.push(vals);
        i = i + 1;
    }
    assert(ints_of(out@) =~= values_of(f));
    Ok(out)
}

/// Builds the dense cost matrix from the text of a cost table. The first line
/// holds the forward and backward sizes; each later line that is not blank
/// holds a forward class, a backward class and a cost, which goes to cell
/// `2 + backward + forward * backward_size` as its low 16 bits. The first two
/// cells hold the sizes and every cell that no line names holds `i16::MAX`.
pub fn cost_matrix(t: &[u8]) -> (r: Result<Vec<i16>, ParsingError>)
    ensures
        ({
            let f = fields_of(t@);
            let v = values_of(f);
            &&& !all_fields_parse(f) ==> (r matches Err(ParsingError::ParseIntError))
            &&& all_fields_parse(f) && v[0].len() < 2 ==> (r matches Err(ParsingError::MissingHeader))
            &&& all_fields_parse(f) && v[0].len() >= 2 && !table_ok(v) ==> (r matches Err(
                ParsingError::MalformedCostTable,
            ))
            &&& all_fields_parse(f) && table_ok(v) ==> (r matches Ok(c) && c@ == matrix_of(v))
        }),
{
    let ghost f = fields_of(t@);
    let ghost v = values_of(f);
    let table = match parse_table(t) {
        Ok(x) => x,
        Err(e) => {
            return Err(e);
        },
    };
    assert(ints_of(table@) == v);
    assert(ints_of(table@).len() == table@.len());
    assert(table@.len() == f.len());
    assert(f.len() > 0);
    let header = &table[0];
    assert(header@.map_values(|x: i32| x as int) == v[0]);
    if header.len() < 2 {
        return Err(ParsingError::MissingHeader);
    }
    let fs = header[0];
    let bs = header[1];
    assert(fs as int == v[0][0] && bs as int == v[0][1]);
    if fs < 0 || fs > 32767 || bs < 0 || bs > 32767 {
        return Err(ParsingError::MalformedCostTable);
    }
    assert((fs as int) * (bs as int) <= 32767 * 32767) by (nonlinear_arith)
        requires
            0 <= fs <= 32767,
            0 <= bs <= 32767,
    ;
    let cells: usize = (fs as usize) * (bs as usize);
    let mut costs: Vec<i16> = Vec::new();
    costs.push(fs as i16);
    costs.push(bs as i16);
    let mut c: usize = 0;
    while c < cells
        invariant
            c <= cells,
            f == fields_of(t@),
            v == values_of(f),
            all_fields_parse(f),
            v[0].len() >= 2,
            fs as int == v[0][0] && bs as int == v[0][1],
            costs@ == seq![fs as i16, bs as i16] + Seq::new(c as nat, |i: int| i16::MAX),
        decreases cells - c,
    {
        costs.push(32767);
        c = c + 1;
        assert(costs@ =~= seq![fs as i16, bs as i16] + Seq::new(c as nat, |i: int| i16::MAX));
    }
    assert(costs@ == costs_after(v, fs as int, bs as int, 1));
    let mut k: usize = 1;
    while k < table.len()
        invariant
            1 <= k <= table.len(),
            f == fields_of(t@),
            v == values_of(f),
            all_fields_parse(f),
            ints_of(table@) == v,
            table@.len() == v.len(),
            header_ok(v),
            fs as int == v[0][0] && bs as int == v[0][1],
            costs@ == costs_after(v, fs as int, bs as int, k as int),
            costs@.len() == 2 + fs * bs,
            forall|i: int| 1 <= i < k ==> cell_line_ok(#[trigger] v[i], v[0][0], v[0][1]),
        decreases table.len() - k,
    {
        let l = &table[k];
        assert(l@.map_values(|x: i32| x as int) == v[k as int]);
        assert(l@.len() == v[k as int].len());
        assert(forall|j: int| 0 <= j < l@.len() ==> l@[j] as int == #[trigger] v[k as int][j]);
        if l.len() > 0 {
            if l.len() < 3 {
                assert(!cell_line_ok(v[k as int], v[0][0], v[0][1]));
                assert(!table_ok(v));
                return Err(ParsingError::MalformedCostTable);
            }
            let fw = l[0];
            let bw = l[1];
            if fw < 0 || fw >= fs || bw < 0 || bw >= bs {
                assert(!cell_line_ok(v[k as int], v[0][0], v[0][1]));
                assert(!table_ok(v));
                return Err(ParsingError::MalformedCostTable);
            }
            assert(bw + fw * bs < fs * bs && fs * bs <= 32767 * 32767) by (nonlinear_arith)
                requires
                    0 <= fw < fs <= 32767,
                    0 <= bw < bs <= 32767,
            ;
            let idx: usize = 2 + (bw as usize) + (fw as usize) * (bs as usize);
            let cost: i16 = #[verifier::truncate] (l[2] as i16);
            costs.set(idx, cost);
        }
        k = k + 1;
    }
    Ok(costs)
}

/// The bytes of a cost matrix: each cost as two little-endian bytes, in order.
pub fn matrix_bytes(costs: &Vec<i16>) -> (r: Vec<u8>)
    ensures
        r@ == costs_bytes(costs@),
{
    let mut out: Vec<u8> = Vec::new();
    let mut i: usize = 0;
    while i < costs.len()
        invariant
            0 <= i <= costs.len(),
            out@ == costs_bytes(costs@.take(i as int)),
        decreases costs.len() - i,
    {
        let mut b = i16_bytes(costs[i]);
        out.append(&mut b);
        assert(costs@.take(i + 1).drop_last() =~= costs@.take(i as int));
        i = i + 1;
    }
    assert(costs@.take(costs.len() as int) =~= costs@);
    out
}

proof fn lemma_cell_injective(f1: int, b1: int, f2: int, b2: int, forward: int, backward: int)
    requires
        0 <= f1 < forward,
        0 <= f2 < forward,
        0 <= b1 < backward,
        0 <= b2 < backward,
        b1 + f1 * backward == b2 + f2 * backward,
    ensures
        f1 == f2 && b1 == b2,
{
    if f1 < f2 {
        assert(b1 + f1 * backward < b2 + f2 * backward) by (nonlinear_arith)
            requires
                f1 < f2,
                0 <= b1 < backward,
                0 <= b2,
        ;
    } else if f2 < f1 {
        assert(b2 + f2 * backward < b1 + f1 * backward) by (nonlinear_arith)
            requires
                f2 < f1,
                0 <= b2 < backward,
                0 <= b1,
        ;
    }
}

proof fn lemma_cell_in_range(f: int, b: int, forward: int, backward: int)
    requires
        0 <= f < forward,
        0 <= b < backward,
    ensures
        2 <= 2 + b + f * backward < 2 + forward * backward,
{
    assert(0 <= b + f * backward < forward * backward) by (nonlinear_arith)
        requires
            0 <= f < forward,
            0 <= b < backward,
    ;
}

proof fn lemma_costs_len(v: Seq<Seq<int>>, n: int)
    requires
        table_ok(v),
        n <= v.len(),
    ensures
        costs_after(v, v[0][0], v[0][1], n).len() == 2 + v[0][0] * v[0][1],
        costs_after(v, v[0][0], v[0][1], n)[0] == v[0][0] as i16,
        costs_after(v, v[0][0], v[0][1], n)[1] == v[0][1] as i16,
    decreases n,
{
    let fs = v[0][0];
    let bs = v[0][1];
    assert(fs * bs >= 0) by (nonlinear_arith)
        requires
            fs >= 0,
            bs >= 0,
    ;
    if n > 1 {
        lemma_costs_len(v, n - 1);
        let l = v[n - 1];
        if l.len() > 0 {
            assert(cell_line_ok(l, fs, bs));
            lemma_cell_in_range(l[0], l[1], fs, bs);
        }
    }
}

proof fn lemma_costs_untouched(v: Seq<Seq<int>>, n: int, f: int, b: int)
    requires
        table_ok(v),
        n <= v.len(),
        0 <= f < v[0][0],
        0 <= b < v[0][1],
        forall|j: int|
            1 <= j < n && (#[trigger] v[j]).len() > 0 ==> !(v[j][0] == f && v[j][1] == b),
    ensures
        costs_after(v, v[0][0], v[0][1], n)[2 + b + f * v[0][1]] == i16::MAX,
    decreases n,
{
    let fs = v[0][0];
    let bs = v[0][1];
    lemma_cell_in_range(f, b, fs, bs);
    if n <= 1 {
        let init = costs_after(v, fs, bs, n);
        assert(init == seq![fs as i16, bs as i16] + Seq::new((fs * bs) as nat, |i: int| i16::MAX));
        assert(init[2 + b + f * bs] == i16::MAX);
    } else {
        lemma_costs_len(v, n - 1);
        lemma_costs_untouched(v, n - 1, f, b);
        let l = v[n - 1];
        let prev = costs_after(v, fs, bs, n - 1);
        if l.len() > 0 {
            assert(cell_line_ok(l, fs, bs));
            lemma_cell_in_range(l[0], l[1], fs, bs);
            if cell_of(l, bs) == 2 + b + f * bs {
                lemma_cell_injective(l[0], l[1], f, b, fs, bs);
                assert(v[n - 1][0] == f && v[n - 1][1] == b);
            }
            assert(cell_of(l, bs) != 2 + b + f * bs);
            assert(2 + b + f * bs < prev.len());
            assert(costs_after(v, fs, bs, n) == prev.update(cell_of(l, bs), l[2] as i16));
            assert(prev.update(cell_of(l, bs), l[2] as i16)[2 + b + f * bs] == prev[2 + b + f * bs]);
        } else {
            assert(costs_after(v, fs, bs, n) == prev);
        }
        assert(costs_after(v, fs, bs, n)[2 + b + f * bs] == prev[2 + b + f * bs]);
    }
}

proof fn lemma_costs_named(v: Seq<Seq<int>>, n: int, k: int)
    requires
        table_ok(v),
        n <= v.len(),
        1 <= k < n,
        v[k].len() > 0,
        forall|j: int|
            k < j < n && (#[trigger] v[j]).len() > 0 ==> !(v[j][0] == v[k][0] && v[j][1] == v[k][1]),
    ensures
        costs_after(v, v[0][0], v[0][1], n)[cell_of(v[k], v[0][1])] == v[k][2] as i16,
    decreases n,
{
    let fs = v[0][0];
    let bs = v[0][1];
    assert(cell_line_ok(v[k], fs, bs));
    lemma_cell_in_range(v[k][0], v[k][1], fs, bs);
    lemma_costs_len(v, n - 1);
    if n - 1 == k {
        let prev = costs_after(v, fs, bs, n - 1);
        assert(costs_after(v, fs, bs, n) == prev.update(cell_of(v[k], bs), v[k][2] as i16));
        assert(0 <= cell_of(v[k], bs) < prev.len());
        assert(costs_after(v, fs, bs, n)[cell_of(v[k], bs)] == v[k][2] as i16);
    } else {
        lemma_costs_named(v, n - 1, k);
        let l = v[n - 1];
        let prev = costs_after(v, fs, bs, n - 1);
        if l.len() > 0 {
            assert(cell_line_ok(l, fs, bs));
            lemma_cell_in_range(l[0], l[1], fs, bs);
            if cell_of(l, bs) == cell_of(v[k], bs) {
                lemma_cell_injective(l[0], l[1], v[k][0], v[k][1], fs, bs);
                assert(v[n - 1][0] == v[k][0] && v[n - 1][1] == v[k][1]);
            }
            assert(costs_after(v, fs, bs, n) == prev.update(cell_of(l, bs), l[2] as i16));
            assert(prev.update(cell_of(l, bs), l[2] as i16)[cell_of(v[k], bs)] == prev[cell_of(v[k], bs)]);
        } else {
            assert(costs_after(v, fs, bs, n) == prev);
        }
        assert(costs_after(v, fs, bs, n)[cell_of(v[k], bs)] == prev[cell_of(v[k], bs)]);
    }
}

/// In the matrix of a well-formed table, the cell `2 + b + f * backward_size`
/// of a line `f b c` holds `c` (its low 16 bits) unless a later line names the
/// same classes; a cell that no line names holds `i16::MAX`; the first two
/// cells hold the sizes, and there are `2 + forward_size * backward_size`.
pub proof fn lemma_matrix_cells(v: Seq<Seq<int>>, k: int, f: int, b: int)
    requires
        table_ok(v),
    ensures
        matrix_of(v).len() == 2 + v[0][0] * v[0][1],
        matrix_of(v)[0] == v[0][0] as i16,
        matrix_of(v)[1] == v[0][1] as i16,
        1 <= k < v.len() && v[k].len() > 0 && (forall|j: int|
            k < j < v.len() && (#[trigger] v[j]).len() > 0 ==> !(v[j][0] == v[k][0] && v[j][1]
                == v[k][1])) ==> matrix_of(v)[2 + v[k][1] + v[k][0] * v[0][1]] == v[k][2] as i16,
        0 <= f < v[0][0] && 0 <= b < v[0][1] && (forall|j: int|
            1 <= j < v.len() && (#[trigger] v[j]).len() > 0 ==> !(v[j][0] == f && v[j][1] == b))
            ==> matrix_of(v)[2 + b + f * v[0][1]] == i16::MAX,
{
    lemma_costs_len(v, v.len() as int);
    if 1 <= k < v.len() && v[k].len() > 0 && (forall|j: int|
        k < j < v.len() && (#[trigger] v[j]).len() > 0 ==> !(v[j][0] == v[k][0] && v[j][1]
            == v[k][1])) {
        lemma_costs_named(v, v.len() as int, k);
    }
    if 0 <= f < v[0][0] && 0 <= b < v[0][1] && (forall|j: int|
        1 <= j < v.len() && (#[trigger] v[j]).len() > 0 ==> !(v[j][0] == f && v[j][1] == b)) {
        lemma_costs_untouched(v, v.len() as int, f, b);
    }
}

} // verus!
