//! Writing text piece by piece.

use vstd::prelude::*;
use vstd::string::StringExecFns;

verus! {

/// `String::push` of std: appends one character.
pub assume_specification[ String::push ](s: &mut String, c: char)
    ensures
        final(s)@ == old(s)@.push(c),
;

/// One decimal digit.
pub open spec fn digit(d: nat) -> char {
    seq!['0', '1', '2', '3', '4', '5', '6', '7', '8', '9'][d as int]
}

/// A number in decimal, without leading zeros.
pub open spec fn decimal(n: nat) -> Seq<char>
    decreases n,
{
    if n < 10 {
        seq![digit(n)]
    } else {
        decimal(n / 10).push(digit(n % 10))
    }
}

fn digit_char(d: usize) -> (r: char)
    requires
        d < 10,
    ensures
        r == digit(d as nat),
{
    match d {
        0 => '0',
        1 => '1',
        2 => '2',
        3 => '3',
        4 => '4',
        5 => '5',
        6 => '6',
        7 => '7',
        8 => '8',
        _ => '9',
    }
}

/// Append a number in decimal.
pub fn push_number(s: &mut String, n: usize)
    ensures
        final(s)@ == old(s)@ + decimal(n as nat),
    decreases n,
{
    if n >= 10 {
        push_number(s, n / 10);
    }
    s.push(digit_char(n % 10));
    assert(s@ =~= old(s)@ + decimal(n as nat));
}

/// Append a piece of text.
pub fn push(s: &mut String, piece: &str)
    ensures
        final(s)@ == old(s)@ + piece@,
{
    s.append(piece);
}

/// A text that starts with a given piece.
pub fn begin(piece: &str) -> (r: String)
    ensures
        r@ == piece@,
{
    let mut s = String::new();
    s.append(piece);
    assert(s@ =~= piece@);
    s
}

/// What a function writes for the first `k` tiles of row `y`, from left to right.
pub open spec fn along_row(f: spec_fn(int, int) -> Seq<char>, y: int, k: nat) -> Seq<char>
    decreases k,
{
    if k == 0 {
        seq![]
    } else {
        along_row(f, y, (k - 1) as nat) + f(k - 1, y)
    }
}

/// What a function writes for the tiles of the first `k` rows of a given width, row by
/// row.
pub open spec fn along_rows(
    f: spec_fn(int, int) -> Seq<char>,
    width: nat,
    k: nat,
) -> Seq<char>
    decreases k,
{
    if k == 0 {
        seq![]
    } else {
        along_rows(f, width, (k - 1) as nat) + along_row(f, k - 1, width)
    }
}

/// A number in decimal.
pub fn number(n: usize) -> (r: String)
    ensures
        r@ == decimal(n as nat),
{
    let mut s = String::new();
    push_number(&mut s, n);
    assert(s@ =~= decimal(n as nat));
    s
}

/// The characters of a text.
pub fn characters(s: &str) -> (r: Vec<char>)
    ensures
        r@ == s@,
{
    let mut r: Vec<char> = Vec::new();
    for c in it: s.chars()
        invariant
            it.seq() == s@,
            r@ == s@.take(it.index()),
    {
        let ghost i = r@.len() as int;
        r.push(c);
        assert(r@ =~= s@.take(i + 1));
    }
    assert(r@ =~= s@);
    r
}

/// A stretch of characters.
pub fn slice(s: &Vec<char>, from: usize, to: usize) -> (r: Vec<char>)
    requires
        from <= to <= s@.len(),
    ensures
        r@ == s@.subrange(from as int, to as int),
{
    let mut r: Vec<char> = Vec::new();
    let mut i: usize = from;
    while i < to
        invariant
            from <= i <= to <= s@.len(),
            r@ == s@.subrange(from as int, i as int),
        decreases to - i,
    {
        r.push(s[i]);
        assert(r@ =~= s@.subrange(from as int, i + 1));
        i = i + 1;
    }
    r
}

/// A stretch of characters as a text.
pub fn piece(s: &Vec<char>, from: usize, to: usize) -> (r: String)
    requires
        from <= to <= s@.len(),
    ensures
        r@ == s@.subrange(from as int, to as int),
{
    let mut r = String::new();
    let mut i: usize = from;
    while i < to
        invariant
            from <= i <= to <= s@.len(),
            r@ == s@.subrange(from as int, i as int),
        decreases to - i,
    {
        r.push(s[i]);
        assert(r@ =~= s@.subrange(from as int, i + 1));
        i = i + 1;
    }
    r
}

/// Whether two texts are the same.
pub fn same(a: &str, b: &str) -> (r: bool)
    ensures
        r == (a@ == b@),
{
    let x = characters(a);
    let y = characters(b);
    if x.len() != y.len() {
        return false;
    }
    let mut i: usize = 0;
    while i < x.len()
        invariant
            x@ == a@,
            y@ == b@,
            x@.len() == y@.len(),
            i <= x@.len(),
            forall|j: int| 0 <= j < i ==> x@[j] == y@[j],
        decreases x@.len() - i,
    {
        if x[i] != y[i] {
            return false;
        }
        i = i + 1;
    }
    assert(x@ =~= y@);
    true
}

/// A letter of the Latin alphabet in lower case; any other character as it is.
pub open spec fn lowercase(c: char) -> char {
    if 'A' <= c <= 'Z' {
        (c as u32 + 32) as char
    } else {
        c
    }
}

/// A letter of the Latin alphabet in lower case; any other character as it is.
pub fn to_lowercase(c: char) -> (r: char)
    ensures
        r == lowercase(c),
{
    if 'A' <= c && c <= 'Z' {
        let code: u8 = c as u8;
        (code + 32) as char
    } else {
        c
    }
}

/// What is written tile by tile stands in row order: before what is written for a tile
/// stands what is written for the rows above and for the tiles to its left, and nothing
/// else.
pub proof fn law_tiles_are_written_in_row_order(
    f: spec_fn(int, int) -> Seq<char>,
    width: nat,
    height: nat,
    x: int,
    y: int,
)
    requires
        0 <= x < width,
        0 <= y < height,
    ensures
        (along_rows(f, width, y as nat) + along_row(f, y, x as nat) + f(x, y)).is_prefix_of(
            along_rows(f, width, height),
        ),
        along_row(f, y, 0) == Seq::<char>::empty(),
        along_rows(f, width, 0) == Seq::<char>::empty(),
        along_rows(f, width, (y + 1) as nat) == along_rows(f, width, y as nat) + along_row(
            f,
            y,
            width,
        ),
{
    let row = along_row(f, y, (x + 1) as nat);
    lemma_row_prefix(f, y, (x + 1) as nat, width);
    lemma_rows_prefix(f, width, (y + 1) as nat, height);
    let before = along_rows(f, width, y as nat);
    let upto = along_rows(f, width, (y + 1) as nat);
    assert(before + along_row(f, y, x as nat) + f(x, y) =~= before + row);
    assert((before + row).is_prefix_of(upto));
}

proof fn lemma_row_prefix(f: spec_fn(int, int) -> Seq<char>, y: int, a: nat, b: nat)
    requires
        a <= b,
    ensures
        along_row(f, y, a).is_prefix_of(along_row(f, y, b)),
    decreases b,
{
    if a < b {
        lemma_row_prefix(f, y, a, (b - 1) as nat);
    }
}

proof fn lemma_rows_prefix(f: spec_fn(int, int) -> Seq<char>, width: nat, a: nat, b: nat)
    requires
        a <= b,
    ensures
        along_rows(f, width, a).is_prefix_of(along_rows(f, width, b)),
    decreases b,
{
    if a < b {
        lemma_rows_prefix(f, width, a, (b - 1) as nat);
    }
}

} // verus!
