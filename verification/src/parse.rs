//! Parsing map text into a [`WorldMap`].
//!
//! The accepted form, fixed here once and for all:
//! - the text must be ASCII; any non-ASCII byte is an invalid character;
//! - it is split into lines at `\n`; each line is trimmed of leading and
//!   trailing blanks (space, tab, carriage return); blank lines at the start
//!   and at the end are ignored;
//! - an optional first line containing a blank is a size header: two
//!   blank-separated positive integers, width first, then height;
//! - without a header, the width is the longest remaining line and the
//!   height their count;
//! - the remaining lines are grid rows: `.` is water, `*` is land, a digit
//!   is a port with that id; rows shorter than the width (or missing
//!   entirely) are padded with land; characters beyond the declared width
//!   or height are ignored.

use crate::grid::{GridModel, WorldMap};
use crate::search::pos_of;
use crate::{ParseError, Pos, WorldMapNode, MAX_CELLS};
use vstd::prelude::*;

verus! {

/// The parsed pieces a trader is built from: the grid, and the flat index
/// and id of the lowest-numbered port (the earliest such cell on ties).
pub ghost struct MapSetup {
    pub grid: GridModel,
    pub first_index: int,
    pub first_id: int,
}

pub open spec fn is_blank(b: u8) -> bool {
    b == 32 || b == 9 || b == 13
}

pub open spec fn is_digit(b: u8) -> bool {
    48 <= b <= 57
}

/// What a grid byte stands for; `None` for a byte no cell may hold.
pub open spec fn classify(b: u8) -> Option<WorldMapNode> {
    if b == 46 {
        Some(WorldMapNode::Water)
    } else if b == 42 {
        Some(WorldMapNode::Land)
    } else if is_digit(b) {
        Some(WorldMapNode::Port((b - 48) as usize))
    } else {
        None
    }
}

/// Index of the first newline in `l`, or its length if there is none.
pub open spec fn find_nl(l: Seq<u8>) -> int
    decreases l.len(),
{
    if l.len() == 0 {
        0
    } else if l[0] == 10 {
        0
    } else {
        1 + find_nl(l.drop_first())
    }
}

/// The lines of `s`: the segments between newlines, one more than there are
/// newline bytes.
pub open spec fn split_lines(s: Seq<u8>) -> Seq<Seq<u8>>
    decreases s.len(),
{
    let i = find_nl(s);
    if 0 <= i < s.len() {
        seq![s.take(i)] + split_lines(s.skip(i + 1))
    } else {
        seq![s]
    }
}

/// How many blanks `l` starts with.
pub open spec fn blank_start(l: Seq<u8>) -> int
    decreases l.len(),
{
    if l.len() == 0 {
        0
    } else if is_blank(l[0]) {
        1 + blank_start(l.drop_first())
    } else {
        0
    }
}

/// How many blanks `l` ends with.
pub open spec fn blank_end(l: Seq<u8>) -> int
    decreases l.len(),
{
    if l.len() == 0 {
        0
    } else if is_blank(l.last()) {
        1 + blank_end(l.drop_last())
    } else {
        0
    }
}

/// `l` without its leading and trailing blanks.
pub open spec fn trimmed(l: Seq<u8>) -> Seq<u8> {
    let a = blank_start(l);
    let b = l.len() - blank_end(l);
    if a < b {
        l.subrange(a, b)
    } else {
        Seq::empty()
    }
}

/// How many empty rows `rows` starts with.
pub open spec fn empty_start(rows: Seq<Seq<u8>>) -> int
    decreases rows.len(),
{
    if rows.len() == 0 {
        0
    } else if rows[0].len() == 0 {
        1 + empty_start(rows.drop_first())
    } else {
        0
    }
}

/// How many empty rows `rows` ends with.
pub open spec fn empty_end(rows: Seq<Seq<u8>>) -> int
    decreases rows.len(),
{
    if rows.len() == 0 {
        0
    } else if rows.last().len() == 0 {
        1 + empty_end(rows.drop_last())
    } else {
        0
    }
}

/// `rows` without the blank rows at either edge.
pub open spec fn content_rows(rows: Seq<Seq<u8>>) -> Seq<Seq<u8>> {
    let a = empty_start(rows);
    let b = rows.len() - empty_end(rows);
    if a < b {
        rows.subrange(a, b)
    } else {
        Seq::empty()
    }
}

/// The views of a vector of byte rows.
pub open spec fn vviews(rows: Seq<Vec<u8>>) -> Seq<Seq<u8>> {
    rows.map_values(|v: Vec<u8>| v@)
}

/// The lines of the text, each trimmed.
pub open spec fn trimmed_rows(s: Seq<u8>) -> Seq<Seq<u8>> {
    split_lines(s).map_values(|l: Seq<u8>| trimmed(l))
}

/// The trimmed lines of the text, blank edges dropped.
pub open spec fn rows_of(b: Seq<u8>) -> Seq<Seq<u8>> {
    content_rows(trimmed_rows(b))
}

pub open spec fn has_blank(l: Seq<u8>) -> bool {
    exists|i: int| 0 <= i < l.len() && is_blank(#[trigger] l[i])
}

/// Index of the first blank in `l`, or its length if there is none.
pub open spec fn blank_pos(l: Seq<u8>) -> int
    decreases l.len(),
{
    if l.len() == 0 {
        0
    } else if is_blank(l[0]) {
        0
    } else {
        1 + blank_pos(l.drop_first())
    }
}

pub open spec fn all_digits(l: Seq<u8>) -> bool {
    l.len() > 0 && forall|i: int| 0 <= i < l.len() ==> is_digit(#[trigger] l[i])
}

/// The number the digit string `l` writes.
pub open spec fn digits_val(l: Seq<u8>) -> int
    decreases l.len(),
{
    if l.len() == 0 {
        0
    } else {
        digits_val(l.drop_last()) * 10 + (l.last() - 48)
    }
}

/// The header line, read as `width height`: the token before the first
/// blank, then, after the run of blanks, the rest of the line. Both must be
/// all digits and at least 1.
pub open spec fn header_spec(l: Seq<u8>) -> Option<(int, int)> {
    let i = blank_pos(l);
    let tok1 = l.take(i);
    let rest = l.skip(i);
    let tok2 = rest.skip(blank_start(rest));
    if all_digits(tok1) && all_digits(tok2) && digits_val(tok1) >= 1 && digits_val(tok2) >= 1 {
        Some((digits_val(tok1), digits_val(tok2)))
    } else {
        None
    }
}

/// The longest row length.
pub open spec fn max_row_len(rows: Seq<Seq<u8>>) -> int
    decreases rows.len(),
{
    if rows.len() == 0 {
        0
    } else {
        let rest = max_row_len(rows.drop_last());
        if rows.last().len() > rest {
            rows.last().len() as int
        } else {
            rest
        }
    }
}

/// The byte the text supplies for flat cell `i`, if any.
pub open spec fn cell_char(rows: Seq<Seq<u8>>, w: int, i: int) -> Option<u8> {
    let x = i % w;
    let y = i / w;
    if 0 <= y < rows.len() && 0 <= x < rows[y].len() {
        Some(rows[y][x])
    } else {
        None
    }
}

/// The cell flat index `i` gets: its classified byte, or land where the
/// text supplies none.
pub open spec fn cell_of(rows: Seq<Seq<u8>>, w: int, i: int) -> WorldMapNode {
    match cell_char(rows, w, i) {
        Some(b) => match classify(b) {
            Some(c) => c,
            None => WorldMapNode::Land,
        },
        None => WorldMapNode::Land,
    }
}

/// Every byte inside the declared bounds is a valid cell character.
pub open spec fn chars_ok(rows: Seq<Seq<u8>>, w: int, h: int) -> bool {
    forall|i: int|
        0 <= i < w * h ==> ((#[trigger] cell_char(rows, w, i)) matches Some(b) ==> classify(b)
            is Some)
}

pub open spec fn grid_model(rows: Seq<Seq<u8>>, w: nat, h: nat) -> GridModel {
    GridModel { width: w, height: h, cells: Seq::new(w * h, |i: int| cell_of(rows, w as int, i)) }
}

/// The lowest-numbered port among the first `n` cells, earliest on ties:
/// `(flat index, id)`.
pub open spec fn best_port(cells: Seq<WorldMapNode>, n: int) -> Option<(int, int)>
    decreases n,
{
    if n <= 0 {
        None
    } else {
        let prev = best_port(cells, n - 1);
        match cells[n - 1] {
            WorldMapNode::Port(id) => match prev {
                None => Some((n - 1, id as int)),
                Some(p) => if (id as int) < p.1 {
                    Some((n - 1, id as int))
                } else {
                    prev
                },
            },
            _ => prev,
        }
    }
}

/// Building the grid once the rows and dimensions are settled.
pub open spec fn build_setup(rows: Seq<Seq<u8>>, w: int, h: int) -> Result<MapSetup, ParseError> {
    if w * h > MAX_CELLS {
        Err(ParseError::MapTooLarge)
    } else if !chars_ok(rows, w, h) {
        Err(ParseError::InvalidCharacter)
    } else {
        let g = grid_model(rows, w as nat, h as nat);
        match best_port(g.cells, g.cells.len() as int) {
            None => Err(ParseError::NoStartingPort),
            Some(p) => Ok(MapSetup { grid: g, first_index: p.0, first_id: p.1 }),
        }
    }
}

/// The whole parse, over the text's bytes.
pub open spec fn spec_parse_bytes(b: Seq<u8>) -> Result<MapSetup, ParseError> {
    let rows = rows_of(b);
    if rows.len() > 0 && has_blank(rows[0]) {
        match header_spec(rows[0]) {
            None => Err(ParseError::MalformedHeader),
            Some((w, h)) => build_setup(rows.skip(1), w, h),
        }
    } else {
        build_setup(rows, max_row_len(rows), rows.len() as int)
    }
}

pub open spec fn ascii_bytes(s: Seq<char>) -> Seq<u8> {
    Seq::new(s.len(), |i: int| s[i] as u8)
}

/// The whole parse, over the text itself. This function of the text alone
/// is what the executable parser is proved to return.
pub open spec fn spec_parse(s: Seq<char>) -> Result<MapSetup, ParseError> {
    if !vstd::utf8::is_ascii_chars(s) {
        Err(ParseError::InvalidCharacter)
    } else {
        spec_parse_bytes(ascii_bytes(s))
    }
}

/// `find_nl` is the first newline position: knowing the bytes before `c`
/// are not newlines, and the one at `c` (if any) is, pins it.
proof fn lemma_find_nl_at(l: Seq<u8>, c: int)
    requires
        0 <= c <= l.len(),
        forall|i: int| 0 <= i < c ==> l[i] != 10,
        c < l.len() ==> l[c] == 10,
    ensures
        find_nl(l) == c,
    decreases c,
{
    if l.len() == 0 {
    } else if c == 0 {
    } else {
        assert(l[0] != 10);
        assert forall|i: int| 0 <= i < c - 1 implies l.drop_first()[i] != 10 by {
            assert(l.drop_first()[i] == l[i + 1]);
        }
        lemma_find_nl_at(l.drop_first(), c - 1);
    }
}

proof fn lemma_blank_start_at(l: Seq<u8>, c: int)
    requires
        0 <= c <= l.len(),
        forall|i: int| 0 <= i < c ==> is_blank(#[trigger] l[i]),
        c < l.len() ==> !is_blank(l[c]),
    ensures
        blank_start(l) == c,
    decreases c,
{
    if l.len() == 0 {
    } else if c == 0 {
    } else {
        assert(is_blank(l[0]));
        assert forall|i: int| 0 <= i < c - 1 implies is_blank(#[trigger] l.drop_first()[i]) by {
            assert(l.drop_first()[i] == l[i + 1]);
        }
        lemma_blank_start_at(l.drop_first(), c - 1);
    }
}

proof fn lemma_blank_end_at(l: Seq<u8>, c: int)
    requires
        0 <= c <= l.len(),
        forall|i: int| l.len() - c <= i < l.len() ==> is_blank(#[trigger] l[i]),
        c < l.len() ==> !is_blank(l[l.len() - c - 1]),
    ensures
        blank_end(l) == c,
    decreases c,
{
    if l.len() == 0 {
    } else if c == 0 {
    } else {
        assert(is_blank(l.last()));
        assert forall|i: int|
            l.drop_last().len() - (c - 1) <= i < l.drop_last().len() implies is_blank(
            #[trigger] l.drop_last()[i],
        ) by {
            assert(l.drop_last()[i] == l[i]);
        }
        lemma_blank_end_at(l.drop_last(), c - 1);
    }
}

proof fn lemma_blank_pos_at(l: Seq<u8>, c: int)
    requires
        0 <= c <= l.len(),
        forall|i: int| 0 <= i < c ==> !is_blank(#[trigger] l[i]),
        c < l.len() ==> is_blank(l[c]),
    ensures
        blank_pos(l) == c,
    decreases c,
{
    if l.len() == 0 {
    } else if c == 0 {
    } else {
        assert(!is_blank(l[0]));
        assert forall|i: int| 0 <= i < c - 1 implies !is_blank(#[trigger] l.drop_first()[i]) by {
            assert(l.drop_first()[i] == l[i + 1]);
        }
        lemma_blank_pos_at(l.drop_first(), c - 1);
    }
}

proof fn lemma_empty_start_at(rows: Seq<Seq<u8>>, c: int)
    requires
        0 <= c <= rows.len(),
        forall|i: int| 0 <= i < c ==> (#[trigger] rows[i]).len() == 0,
        c < rows.len() ==> rows[c].len() != 0,
    ensures
        empty_start(rows) == c,
    decreases c,
{
    if rows.len() == 0 {
    } else if c == 0 {
    } else {
        assert(rows[0].len() == 0);
        assert forall|i: int| 0 <= i < c - 1 implies (#[trigger] rows.drop_first()[i]).len()
            == 0 by {
            assert(rows.drop_first()[i] == rows[i + 1]);
        }
        lemma_empty_start_at(rows.drop_first(), c - 1);
    }
}

proof fn lemma_empty_end_at(rows: Seq<Seq<u8>>, c: int)
    requires
        0 <= c <= rows.len(),
        forall|i: int| rows.len() - c <= i < rows.len() ==> (#[trigger] rows[i]).len() == 0,
        c < rows.len() ==> rows[rows.len() - c - 1].len() != 0,
    ensures
        empty_end(rows) == c,
    decreases c,
{
    if rows.len() == 0 {
    } else if c == 0 {
    } else {
        assert(rows.last().len() == 0);
        assert forall|i: int|
            rows.drop_last().len() - (c - 1) <= i < rows.drop_last().len() implies (
            #[trigger] rows.drop_last()[i]).len() == 0 by {
            assert(rows.drop_last()[i] == rows[i]);
        }
        lemma_empty_end_at(rows.drop_last(), c - 1);
    }
}

proof fn lemma_digits_val_nonneg(l: Seq<u8>)
    requires
        forall|i: int| 0 <= i < l.len() ==> is_digit(#[trigger] l[i]),
    ensures
        digits_val(l) >= 0,
    decreases l.len(),
{
    if l.len() > 0 {
        assert(is_digit(l.last()));
        assert forall|i: int| 0 <= i < l.drop_last().len() implies is_digit(
            #[trigger] l.drop_last()[i],
        ) by {
            assert(l.drop_last()[i] == l[i]);
        }
        lemma_digits_val_nonneg(l.drop_last());
    }
}

/// What `best_port` finds really is the lowest-numbered port, at its
/// earliest cell; and it finds one whenever any port exists.
proof fn lemma_best_port_props(cells: Seq<WorldMapNode>, n: int)
    requires
        n <= cells.len(),
    ensures
        best_port(cells, n) is None ==> forall|i: int|
            0 <= i < n ==> !((#[trigger] cells[i]) matches WorldMapNode::Port(_)),
        best_port(cells, n) matches Some(p) ==> {
            &&& 0 <= p.0 < n
            &&& cells[p.0] == WorldMapNode::Port(p.1 as usize)
            &&& p.1 >= 0
            &&& forall|i: int|
                0 <= i < n ==> ((#[trigger] cells[i]) matches WorldMapNode::Port(q) ==> q as int
                    >= p.1)
            &&& forall|i: int|
                0 <= i < p.0 ==> ((#[trigger] cells[i]) matches WorldMapNode::Port(q) ==> q as int
                    > p.1)
        },
    decreases n,
{
    if n > 0 {
        lemma_best_port_props(cells, n - 1);
    }
}

/// Unfolds the line split once: a newline-free stretch `[j, k)` closed by a
/// newline (or the text's end) is the next line.
proof fn lemma_split_step(s: Seq<u8>, j: int, k: int)
    requires
        0 <= j <= k <= s.len(),
        forall|i: int| j <= i < k ==> s[i] != 10,
        k < s.len() ==> s[k] == 10,
    ensures
        k == s.len() ==> split_lines(s.skip(j)) == seq![s.subrange(j, k)],
        k < s.len() ==> split_lines(s.skip(j)) == seq![s.subrange(j, k)] + split_lines(
            s.skip(k + 1),
        ),
{
    let t = s.skip(j);
    assert forall|i: int| 0 <= i < k - j implies t[i] != 10 by {
        assert(t[i] == s[i + j]);
    }
    if k < s.len() {
        assert(t[k - j] == s[k]);
    }
    lemma_find_nl_at(t, k - j);
    assert(t.take(k - j) =~= s.subrange(j, k));
    if k < s.len() {
        assert(t.skip(k - j + 1) =~= s.skip(k + 1));
    } else {
        assert(t =~= s.subrange(j, k));
    }
}

/// Compares a product against a bound by one division, exactly.
proof fn lemma_size_check(v1: int, v2: int, max: int)
    requires
        v1 >= 0,
        v2 >= 1,
        max >= 0,
    ensures
        (v1 > max / v2) <==> (v1 * v2 > max),
{
    vstd::arithmetic::div_mod::lemma_fundamental_div_mod(max, v2);
    let d = max / v2;
    let r = max % v2;
    assert((v1 > d) <==> (v1 * v2 > max)) by (nonlinear_arith)
        requires
            max == v2 * d + r,
            0 <= r < v2,
            v1 >= 0,
            v2 >= 1,
    ;
}

fn blank(b: u8) -> (r: bool)
    ensures
        r == is_blank(b),
{
    b == 32 || b == 9 || b == 13
}

/// Copies `bytes[j..k]` without its leading and trailing blanks.
fn take_trimmed(bytes: &Vec<u8>, j: usize, k: usize) -> (r: Vec<u8>)
    requires
        j <= k <= bytes@.len(),
    ensures
        r@ == trimmed(bytes@.subrange(j as int, k as int)),
{
    let ghost l = bytes@.subrange(j as int, k as int);
    let mut a = j;
    while a < k && blank(bytes[a])
        invariant
            j <= a <= k <= bytes@.len(),
            forall|i: int| j <= i < a ==> is_blank(#[trigger] bytes@[i]),
        decreases k - a,
    {
        a = a + 1;
    }
    proof {
        assert forall|i: int| 0 <= i < a - j implies is_blank(#[trigger] l[i]) by {
            assert(l[i] == bytes@[j + i]);
        }
        if a < k {
            assert(l[a - j] == bytes@[a as int]);
        }
        lemma_blank_start_at(l, a - j);
    }
    if a == k {
        let r: Vec<u8> = Vec::new();
        proof {
            lemma_blank_end_at(l, l.len() as int);
            assert(r@ =~= trimmed(l));
        }
        return r;
    }
    let mut b = k;
    while b > a && blank(bytes[b - 1])
        invariant
            j <= a < b <= k <= bytes@.len(),
            !is_blank(bytes@[a as int]),
            forall|i: int| b <= i < k ==> is_blank(#[trigger] bytes@[i]),
        decreases b,
    {
        b = b - 1;
    }
    proof {
        assert forall|i: int| l.len() - (k - b) <= i < l.len() implies is_blank(
            #[trigger] l[i],
        ) by {
            assert(l[i] == bytes@[j + i]);
        }
        assert(l[l.len() - (k - b) - 1] == bytes@[b - 1]);
        lemma_blank_end_at(l, k - b);
        assert(trimmed(l) == l.subrange(a - j, b - j));
    }
    let mut out: Vec<u8> = Vec::new();
    let mut t = a;
    while t < b
        invariant
            j <= a <= t <= b <= k <= bytes@.len(),
            out@ =~= bytes@.subrange(a as int, t as int),
        decreases b - t,
    {
        out.push(bytes[t]);
        t = t + 1;
    }
    proof {
        assert(out@ =~= l.subrange(a - j, b - j));
    }
    out
}

/// Splits the text into its trimmed lines.
fn split_rows(bytes: &Vec<u8>) -> (rows: Vec<Vec<u8>>)
    ensures
        vviews(rows@) == trimmed_rows(bytes@),
{
    let n = bytes.len();
    let mut rows: Vec<Vec<u8>> = Vec::new();
    let mut j: usize = 0;
    let mut done = false;
    proof {
        assert(bytes@.skip(0) =~= bytes@);
        assert(vviews(rows@) + trimmed_rows(bytes@) =~= trimmed_rows(bytes@));
    }
    while !done
        invariant
            j <= n,
            n == bytes@.len(),
            !done ==> vviews(rows@) + trimmed_rows(bytes@.skip(j as int)) == trimmed_rows(
                bytes@,
            ),
            done ==> vviews(rows@) == trimmed_rows(bytes@),
        decreases n - j + (if done {
            0int
        } else {
            1int
        }),
    {
        let ghost rows0 = rows@;
        let mut k = j;
        while k < n && bytes[k] != 10
            invariant
                j <= k <= n,
                n == bytes@.len(),
                forall|i: int| j <= i < k ==> bytes@[i] != 10,
            decreases n - k,
        {
            k = k + 1;
        }
        let row = take_trimmed(bytes, j, k);
        rows.push(row);
        proof {
            lemma_split_step(bytes@, j as int, k as int);
            let line = bytes@.subrange(j as int, k as int);
            assert(vviews(rows@) =~= vviews(rows0).push(trimmed(line)));
            if k < n {
                assert(trimmed_rows(bytes@.skip(j as int)) =~= seq![trimmed(line)]
                    + trimmed_rows(bytes@.skip(k + 1)));
                assert(vviews(rows0).push(trimmed(line)) + trimmed_rows(bytes@.skip(k + 1))
                    =~= vviews(rows0) + trimmed_rows(bytes@.skip(j as int)));
            } else {
                assert(trimmed_rows(bytes@.skip(j as int)) =~= seq![trimmed(line)]);
                assert(vviews(rows0).push(trimmed(line)) =~= vviews(rows0) + trimmed_rows(
                    bytes@.skip(j as int),
                ));
            }
        }
        if k == n {
            done = true;
        } else {
            j = k + 1;
        }
    }
    rows
}

/// Reads `l[from..to]` as a decimal number. Returns: is it all digits; is
/// its value over [`MAX_CELLS`]; and, when not over, the value itself.
fn parse_num(l: &Vec<u8>, from: usize, to: usize) -> (r: (bool, bool, usize))
    requires
        from <= to <= l@.len(),
    ensures
        ({
            let tok = l@.subrange(from as int, to as int);
            &&& r.0 == all_digits(tok)
            &&& (r.0 ==> (r.1 <==> digits_val(tok) > MAX_CELLS))
            &&& (r.0 && !r.1 ==> r.2 == digits_val(tok))
        }),
{
    let ghost tok = l@.subrange(from as int, to as int);
    if from == to {
        return (false, false, 0);
    }
    let mut acc: usize = 0;
    let mut big = false;
    let mut t = from;
    while t < to
        invariant
            from <= t <= to <= l@.len(),
            tok == l@.subrange(from as int, to as int),
            tok.len() == to - from,
            forall|i: int| from <= i < t ==> is_digit(#[trigger] l@[i]),
            big <==> digits_val(l@.subrange(from as int, t as int)) > MAX_CELLS,
            !big ==> acc == digits_val(l@.subrange(from as int, t as int)) && acc <= MAX_CELLS,
        decreases to - t,
    {
        let b = l[t];
        if b < 48 || b > 57 {
            proof {
                assert(tok[t - from] == l@[t as int]);
                assert(!all_digits(tok));
            }
            return (false, false, 0);
        }
        proof {
            let pre = l@.subrange(from as int, t as int);
            let pre2 = l@.subrange(from as int, t + 1);
            assert(pre2.drop_last() =~= pre);
            assert(pre2.last() == l@[t as int]);
            assert(digits_val(pre2) == digits_val(pre) * 10 + (b - 48));
            assert forall|i: int| 0 <= i < pre.len() implies is_digit(#[trigger] pre[i]) by {
                assert(pre[i] == l@[from + i]);
            }
            lemma_digits_val_nonneg(pre);
        }
        if big {
        } else {
            let v = acc * 10 + ((b - 48) as usize);
            if v > MAX_CELLS {
                big = true;
            } else {
                acc = v;
            }
        }
        t = t + 1;
    }
    proof {
        assert(tok =~= l@.subrange(from as int, to as int));
        assert forall|i: int| 0 <= i < tok.len() implies is_digit(#[trigger] tok[i]) by {
            assert(tok[i] == l@[from + i]);
        }
        assert(all_digits(tok));
    }
    (true, big, acc)
}

/// Finds the first blank of a row, if there is one.
fn find_blank(l: &Vec<u8>) -> (r: (bool, usize))
    ensures
        r.0 == has_blank(l@),
        r.0 ==> r.1 < l@.len() && blank_pos(l@) == r.1,
        !r.0 ==> blank_pos(l@) == l@.len(),
{
    let mut t: usize = 0;
    while t < l.len()
        invariant
            t <= l@.len(),
            forall|i: int| 0 <= i < t ==> !is_blank(#[trigger] l@[i]),
        decreases l@.len() - t,
    {
        if blank(l[t]) {
            proof {
                lemma_blank_pos_at(l@, t as int);
            }
            return (true, t);
        }
        t = t + 1;
    }
    proof {
        lemma_blank_pos_at(l@, l@.len() as int);
    }
    (false, 0)
}

/// Builds the map from grid rows `rows[lo..hi]` with settled dimensions,
/// and finds the starting port.
fn build_grid(rows: &Vec<Vec<u8>>, lo: usize, hi: usize, w: usize, h: usize) -> (r: Result<
    (WorldMap, Pos),
    ParseError,
>)
    requires
        lo <= hi <= rows@.len(),
        (w as int) * (h as int) <= MAX_CELLS,
    ensures
        ({
            let grows = vviews(rows@).subrange(lo as int, hi as int);
            let res = build_setup(grows, w as int, h as int);
            &&& (r matches Ok(p) ==> res matches Ok(setup) && p.0@ == setup.grid && (
            p.1.0 as int,
            p.1.1 as int,
            ) == pos_of(setup.grid, setup.first_index))
            &&& (r matches Err(e) ==> res == Err::<MapSetup, ParseError>(e))
        }),
{
    let ghost grows = vviews(rows@).subrange(lo as int, hi as int);
    let n = w * h;
    let mut cells: Vec<WorldMapNode> = Vec::new();
    if n > 0 {
        proof {
            assert(w >= 1 && h >= 1);
        }
        let mut x: usize = 0;
        let mut y: usize = 0;
        let mut idx: usize = 0;
        while idx < n
            invariant
                n == w * h,
                (w as int) * (h as int) <= MAX_CELLS,
                1 <= w,
                1 <= h,
                lo <= hi <= rows@.len(),
                grows == vviews(rows@).subrange(lo as int, hi as int),
                idx == y * w + x,
                0 <= x < w,
                0 <= y <= h,
                idx <= n,
                cells@.len() == idx,
                forall|i: int| 0 <= i < idx ==> cells@[i] == cell_of(grows, w as int, i),
                forall|i: int|
                    0 <= i < idx ==> ((#[trigger] cell_char(grows, w as int, i)) matches Some(b)
                        ==> classify(b) is Some),
            decreases n - idx,
        {
            proof {
                assert(y < h) by (nonlinear_arith)
                    requires
                        idx == y * w + x,
                        idx < n,
                        n == w * h,
                        0 <= x < w,
                        0 <= y,
                ;
                vstd::arithmetic::div_mod::lemma_fundamental_div_mod_converse(
                    idx as int,
                    w as int,
                    y as int,
                    x as int,
                );
            }
            let mut node = WorldMapNode::Land;
            if y < hi - lo {
                let row = &rows[lo + y];
                proof {
                    assert(grows[y as int] == rows@[lo + y]@);
                }
                if x < row.len() {
                    let b = row[x];
                    if b == 46 {
                        node = WorldMapNode::Water;
                    } else if b == 42 {
                        node = WorldMapNode::Land;
                    } else if 48 <= b && b <= 57 {
                        node = WorldMapNode::Port((b - 48) as usize);
                    } else {
                        proof {
                            assert(cell_char(grows, w as int, idx as int) == Some(b));
                            assert(classify(b) is None);
                            assert(idx < (w as int) * (h as int));
                            assert(!chars_ok(grows, w as int, h as int));
                        }
                        return Err(ParseError::InvalidCharacter);
                    }
                    proof {
                        assert(cell_char(grows, w as int, idx as int) == Some(b));
                        assert(node == cell_of(grows, w as int, idx as int));
                    }
                } else {
                    proof {
                        assert(cell_char(grows, w as int, idx as int) is None);
                    }
                }
            } else {
                proof {
                    assert(y >= grows.len());
                    assert(cell_char(grows, w as int, idx as int) is None);
                }
            }
            cells.push(node);
            proof {
                if x + 1 == w {
                    assert((y + 1) * (w as int) == y * (w as int) + w) by (nonlinear_arith);
                    assert(y + 1 <= h) by (nonlinear_arith)
                        requires
                            idx < n,
                            n == w * h,
                            idx == y * w + x,
                            x + 1 == w,
                            0 <= y,
                            1 <= w,
                    ;
                }
            }
            x = x + 1;
            if x == w {
                x = 0;
                y = y + 1;
            }
            idx = idx + 1;
        }
    }
    proof {
        assert(cells@.len() == (w as int) * (h as int)) by {
            if n == 0 {
                assert((w as int) * (h as int) == 0);
            }
        }
        assert(cells@ =~= Seq::new(((w as int) * (h as int)) as nat, |i: int| cell_of(grows, w as int, i)));
        assert(chars_ok(grows, w as int, h as int));
        assert(cells@ == grid_model(grows, w as nat, h as nat).cells);
    }
    // the lowest-numbered port, earliest on ties, becomes the start
    let mut best_idx: usize = 0;
    let mut best_id: usize = 0;
    let mut found = false;
    let mut i: usize = 0;
    while i < cells.len()
        invariant
            i <= cells@.len(),
            !found ==> best_port(cells@, i as int) is None,
            found ==> best_port(cells@, i as int) == Some((best_idx as int, best_id as int)),
            found ==> best_idx < cells@.len(),
        decreases cells@.len() - i,
    {
        let is_port: bool;
        let pid: usize;
        match cells[i] {
            WorldMapNode::Port(id) => {
                is_port = true;
                pid = id;
            },
            _ => {
                is_port = false;
                pid = 0;
            },
        }
        if is_port && (!found || pid < best_id) {
            best_idx = i;
            best_id = pid;
            found = true;
        }
        i = i + 1;
    }
    if !found {
        proof {
            assert(best_port(grid_model(grows, w as nat, h as nat).cells, cells@.len() as int)
                is None);
        }
        return Err(ParseError::NoStartingPort);
    }
    proof {
        assert(cells@.len() >= 1);
        assert(w >= 1 && h >= 1) by (nonlinear_arith)
            requires
                (w as int) * (h as int) >= 1,
        ;
        lemma_best_port_props(cells@, cells@.len() as int);
        assert((best_idx as int) / (w as int) < h) by (nonlinear_arith)
            requires
                0 <= best_idx,
                (best_idx as int) < (w as int) * (h as int),
                1 <= w,
        ;
        vstd::arithmetic::div_mod::lemma_mod_bound(best_idx as int, w as int);
        // the grid is well formed: sizes fit and every port id is a digit
        assert forall|i2: int|
            0 <= i2 < cells@.len() implies ((#[trigger] cells@[i2])
            matches WorldMapNode::Port(id) ==> id <= 9) by {
            assert(cells@[i2] == cell_of(grows, w as int, i2));
        }
        assert((GridModel { width: w as nat, height: h as nat, cells: cells@ }).wf());
        assert(w <= MAX_CELLS && h <= MAX_CELLS) by (nonlinear_arith)
            requires
                (w as int) * (h as int) <= MAX_CELLS,
                1 <= w,
                1 <= h,
        ;
    }
    let px = best_idx % w;
    let py = best_idx / w;
    let ghost gm = GridModel { width: w as nat, height: h as nat, cells: cells@ };
    let map = WorldMap::from_parts(cells, w, h);
    proof {
        assert(map@ == grid_model(grows, w as nat, h as nat));
        assert((px as int, py as int) == pos_of(gm, best_idx as int));
    }
    Ok((map, Pos(px as i32, py as i32)))
}

proof fn lemma_max_row_len_nonneg(rows: Seq<Seq<u8>>)
    ensures
        max_row_len(rows) >= 0,
    decreases rows.len(),
{
    if rows.len() > 0 {
        lemma_max_row_len_nonneg(rows.drop_last());
    }
}

proof fn lemma_build_setup_ok(rows: Seq<Seq<u8>>, w: int, h: int)
    requires
        build_setup(rows, w, h) is Ok,
        w >= 0,
        h >= 0,
    ensures
        ({
            let setup = build_setup(rows, w, h)->Ok_0;
            &&& setup.grid.wf()
            &&& 0 <= setup.first_index < setup.grid.cells.len()
            &&& setup.grid.cells[setup.first_index] == WorldMapNode::Port(setup.first_id as usize)
            &&& 0 <= setup.first_id <= 9
            &&& forall|i: int|
                0 <= i < setup.grid.cells.len() ==> ((#[trigger] setup.grid.cells[i])
                    matches WorldMapNode::Port(q) ==> q as int >= setup.first_id)
            &&& forall|i: int|
                0 <= i < setup.first_index ==> ((#[trigger] setup.grid.cells[i])
                    matches WorldMapNode::Port(q) ==> q as int > setup.first_id)
        }),
{
    let g = grid_model(rows, w as nat, h as nat);
    lemma_best_port_props(g.cells, g.cells.len() as int);
    assert forall|i: int|
        0 <= i < g.cells.len() implies ((#[trigger] g.cells[i]) matches WorldMapNode::Port(id)
        ==> id <= 9) by {
        assert(g.cells[i] == cell_of(rows, w, i));
    }
    assert(g.wf());
}

/// Facts about a successful parse: the grid is well formed, and the
/// recorded starting port really is the lowest-numbered one, at its
/// earliest cell.
pub proof fn lemma_spec_parse_ok(s: Seq<char>)
    requires
        spec_parse(s) is Ok,
    ensures
        ({
            let setup = spec_parse(s)->Ok_0;
            &&& setup.grid.wf()
            &&& 0 <= setup.first_index < setup.grid.cells.len()
            &&& setup.grid.cells[setup.first_index] == WorldMapNode::Port(setup.first_id as usize)
            &&& 0 <= setup.first_id <= 9
            &&& forall|i: int|
                0 <= i < setup.grid.cells.len() ==> ((#[trigger] setup.grid.cells[i])
                    matches WorldMapNode::Port(q) ==> q as int >= setup.first_id)
            &&& forall|i: int|
                0 <= i < setup.first_index ==> ((#[trigger] setup.grid.cells[i])
                    matches WorldMapNode::Port(q) ==> q as int > setup.first_id)
        }),
{
    let b = ascii_bytes(s);
    let rows = rows_of(b);
    if rows.len() > 0 && has_blank(rows[0]) {
        let hdr = header_spec(rows[0]);
        lemma_build_setup_ok(rows.skip(1), hdr->Some_0.0, hdr->Some_0.1);
    } else {
        lemma_max_row_len_nonneg(rows);
        lemma_build_setup_ok(rows, max_row_len(rows), rows.len() as int);
    }
}

/// Parses map text into a map and the position of its lowest-numbered
/// port, under the convention documented at the head of this module. The
/// result is exactly [`spec_parse`] of the text: the error returned, and
/// the map built, are functions of the text alone.
pub fn parse_map(text: &str) -> (r: Result<(WorldMap, Pos), ParseError>)
    ensures
        r matches Ok(p) ==> spec_parse(text@) matches Ok(setup) && p.0@ == setup.grid && (
        p.1.0 as int,
        p.1.1 as int,
        ) == pos_of(setup.grid, setup.first_index),
        r matches Err(e) ==> spec_parse(text@) == Err::<MapSetup, ParseError>(e),
{
    if !text.is_ascii() {
        return Err(ParseError::InvalidCharacter);
    }
    let bytes = text.as_bytes_vec();
    proof {
        vstd::string::is_ascii_spec_bytes(text);
        assert(bytes@ =~= ascii_bytes(text@));
    }
    let ghost bb = bytes@;
    let rows = split_rows(&bytes);
    let ghost trows = trimmed_rows(bb);
    let total = rows.len();
    let mut lo: usize = 0;
    while lo < total && rows[lo].len() == 0
        invariant
            lo <= total,
            total == rows@.len(),
            forall|i: int| 0 <= i < lo ==> rows@[i]@.len() == 0,
        decreases total - lo,
    {
        lo = lo + 1;
    }
    let mut hi: usize = total;
    while hi > lo && rows[hi - 1].len() == 0
        invariant
            lo <= hi <= total,
            total == rows@.len(),
            forall|i: int| hi <= i < total ==> rows@[i]@.len() == 0,
        decreases hi,
    {
        hi = hi - 1;
    }
    proof {
        assert(trows =~= vviews(rows@));
        assert forall|i: int| 0 <= i < lo implies (#[trigger] trows[i]).len() == 0 by {
            assert(trows[i] == rows@[i]@);
        }
        assert forall|i: int| hi <= i < total implies (#[trigger] trows[i]).len() == 0 by {
            assert(trows[i] == rows@[i]@);
        }
        if lo < hi {
            assert(trows[lo as int] == rows@[lo as int]@);
            assert(trows[lo as int].len() != 0);
            lemma_empty_start_at(trows, lo as int);
            assert(trows[hi - 1] == rows@[hi - 1]@);
            assert(trows[hi - 1].len() != 0);
            lemma_empty_end_at(trows, total - hi);
            assert(rows_of(bb) == trows.subrange(lo as int, hi as int));
        } else {
            assert forall|i: int| 0 <= i < total implies (#[trigger] trows[i]).len() == 0 by {
                assert(trows[i] == rows@[i]@);
            }
            lemma_empty_start_at(trows, total as int);
            lemma_empty_end_at(trows, total as int);
            assert(rows_of(bb) == Seq::<Seq<u8>>::empty());
        }
    }
    if hi == lo {
        proof {
            let crows = rows_of(bb);
            assert(crows.len() == 0);
            assert(max_row_len(crows) == 0);
            assert(chars_ok(crows, 0, 0));
            assert(grid_model(crows, 0, 0).cells =~= Seq::<WorldMapNode>::empty());
            assert(best_port(grid_model(crows, 0, 0).cells, 0) is None);
            assert(spec_parse_bytes(bb) == Err::<MapSetup, ParseError>(ParseError::NoStartingPort));
        }
        return Err(ParseError::NoStartingPort);
    }
    let ghost crows = rows_of(bb);
    proof {
        assert(crows == trows.subrange(lo as int, hi as int));
        assert(crows[0] == trows[lo as int]);
        assert(trows[lo as int] == rows@[lo as int]@);
    }
    let (has_hdr, _first_sep) = find_blank(&rows[lo]);
    if has_hdr {
        let hrow = &rows[lo];
        let hlen = hrow.len();
        let (_f, sep) = find_blank(hrow);
        let mut t2 = sep;
        while t2 < hlen && blank(hrow[t2])
            invariant
                sep <= t2 <= hlen,
                hlen == hrow@.len(),
                forall|i: int| sep <= i < t2 ==> is_blank(#[trigger] hrow@[i]),
            decreases hlen - t2,
        {
            t2 = t2 + 1;
        }
        let ghost l = hrow@;
        let ghost rest = l.skip(sep as int);
        proof {
            assert forall|i: int| 0 <= i < t2 - sep implies is_blank(#[trigger] rest[i]) by {
                assert(rest[i] == l[sep + i]);
            }
            if t2 < hlen {
                assert(rest[t2 - sep] == l[t2 as int]);
            }
            lemma_blank_start_at(rest, t2 - sep);
            assert(l.take(sep as int) =~= l.subrange(0, sep as int));
            assert(rest.skip(t2 - sep) =~= l.subrange(t2 as int, hlen as int));
        }
        let (ok1, big1, w) = parse_num(hrow, 0, sep);
        let (ok2, big2, h) = parse_num(hrow, t2, hlen);
        let ghost tok1 = l.subrange(0, sep as int);
        let ghost tok2 = l.subrange(t2 as int, hlen as int);
        if !ok1 || !ok2 {
            proof {
                assert(header_spec(crows[0]) is None);
            }
            return Err(ParseError::MalformedHeader);
        }
        proof {
            lemma_digits_val_nonneg(tok1);
            lemma_digits_val_nonneg(tok2);
        }
        if (!big1 && w == 0) || (!big2 && h == 0) {
            proof {
                assert(header_spec(crows[0]) is None);
            }
            return Err(ParseError::MalformedHeader);
        }
        proof {
            assert(header_spec(crows[0]) == Some((digits_val(tok1), digits_val(tok2))));
        }
        if big1 || big2 {
            proof {
                let sw = digits_val(tok1);
                let sh = digits_val(tok2);
                assert(sw * sh > MAX_CELLS) by (nonlinear_arith)
                    requires
                        sw >= 1,
                        sh >= 1,
                        sw > MAX_CELLS || sh > MAX_CELLS,
                ;
            }
            return Err(ParseError::MapTooLarge);
        }
        if w > MAX_CELLS / h {
            proof {
                lemma_size_check(w as int, h as int, MAX_CELLS as int);
            }
            return Err(ParseError::MapTooLarge);
        }
        proof {
            lemma_size_check(w as int, h as int, MAX_CELLS as int);
            assert(vviews(rows@).subrange(lo + 1, hi as int) =~= crows.skip(1));
        }
        let r = build_grid(&rows, lo + 1, hi, w, h);
        proof {
            assert(spec_parse_bytes(bb) == build_setup(crows.skip(1), w as int, h as int));
        }
        r
    } else {
        let mut w: usize = 0;
        let mut yy = lo;
        while yy < hi
            invariant
                lo <= yy <= hi <= rows@.len(),
                crows == vviews(rows@).subrange(lo as int, hi as int),
                w == max_row_len(crows.take(yy - lo)),
                w <= usize::MAX,
            decreases hi - yy,
        {
            let rl = rows[yy].len();
            proof {
                let pre = crows.take(yy - lo);
                let pre2 = crows.take(yy + 1 - lo);
                assert(pre2.drop_last() =~= pre);
                assert(pre2.last() == crows[yy - lo]);
                assert(crows[yy - lo] == rows@[yy as int]@);
            }
            if rl > w {
                w = rl;
            }
            yy = yy + 1;
        }
        let h = hi - lo;
        proof {
            assert(crows.take(hi - lo) =~= crows);
            assert(h >= 1);
            lemma_digits_val_nonneg(Seq::empty());
        }
        if w > MAX_CELLS / h {
            proof {
                lemma_size_check(w as int, h as int, MAX_CELLS as int);
            }
            return Err(ParseError::MapTooLarge);
        }
        proof {
            lemma_size_check(w as int, h as int, MAX_CELLS as int);
            assert(vviews(rows@).subrange(lo as int, hi as int) == crows);
        }
        let r = build_grid(&rows, lo, hi, w, h);
        proof {
            assert(spec_parse_bytes(bb) == build_setup(crows, w as int, h as int));
        }
        r
    }
}

} // verus!
