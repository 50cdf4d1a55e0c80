use vstd::prelude::*;

verus! {

/// A cell coordinate: a row and a column, both counted from zero.
#[derive(Hash, PartialEq, Eq, Structural, Debug, Copy, Clone)]
pub struct Position {
    pub row: u32,
    pub column: u32,
}

/// The character that separates row and column in a key.
pub open spec fn separator() -> char {
    '-'
}

/// The decimal digit character for `d`, where `d < 10`.
pub open spec fn digit(d: nat) -> char {
    if d == 0 {
        '0'
    } else if d == 1 {
        '1'
    } else if d == 2 {
        '2'
    } else if d == 3 {
        '3'
    } else if d == 4 {
        '4'
    } else if d == 5 {
        '5'
    } else if d == 6 {
        '6'
    } else if d == 7 {
        '7'
    } else if d == 8 {
        '8'
    } else {
        '9'
    }
}

/// The number that a decimal digit character stands for.
pub open spec fn digit_value(c: char) -> nat {
    if c == '0' {
        0
    } else if c == '1' {
        1
    } else if c == '2' {
        2
    } else if c == '3' {
        3
    } else if c == '4' {
        4
    } else if c == '5' {
        5
    } else if c == '6' {
        6
    } else if c == '7' {
        7
    } else if c == '8' {
        8
    } else {
        9
    }
}

/// The decimal notation of `n`, most significant digit first and without
/// leading zeros.
pub open spec fn decimal(n: nat) -> Seq<char>
    decreases n,
{
    if n < 10 {
        seq![digit(n)]
    } else {
        decimal(n / 10).push(digit(n % 10))
    }
}

/// The number that a sequence of decimal digits denotes.
pub open spec fn decimal_value(digits: Seq<char>) -> nat
    decreases digits.len(),
{
    if digits.len() == 0 {
        0
    } else {
        decimal_value(digits.drop_last()) * 10 + digit_value(digits.last())
    }
}

/// Decimal notation is never empty and holds no separator.
pub proof fn lemma_decimal_digits(n: nat)
    ensures
        decimal(n).len() >= 1,
        forall|i: int| 0 <= i < decimal(n).len() ==> decimal(n)[i] != separator(),
    decreases n,
{
    if n >= 10 {
        lemma_decimal_digits(n / 10);
    }
}

/// Reading the decimal notation of a number gives the number back.
pub proof fn lemma_decimal_value(n: nat)
    ensures
        decimal_value(decimal(n)) == n,
    decreases n,
{
    if n < 10 {
        assert(decimal(n).drop_last() =~= Seq::<char>::empty());
        assert(decimal_value(decimal(n).drop_last()) == 0);
    } else {
        lemma_decimal_value(n / 10);
        assert(decimal(n).drop_last() =~= decimal(n / 10));
    }
}

/// Different numbers have different decimal notations.
pub proof fn lemma_decimal_injective(a: nat, b: nat)
    requires
        decimal(a) == decimal(b),
    ensures
        a == b,
{
    lemma_decimal_value(a);
    lemma_decimal_value(b);
}

fn digit_str(d: u32) -> (s: &'static str)
    requires
        d < 10,
    ensures
        s@ == seq![digit(d as nat)],
{
    proof {
        reveal_strlit("0");
        reveal_strlit("1");
        reveal_strlit("2");
        reveal_strlit("3");
        reveal_strlit("4");
        reveal_strlit("5");
        reveal_strlit("6");
        reveal_strlit("7");
        reveal_strlit("8");
        reveal_strlit("9");
    }
    let s = match d {
        0 => "0",
        1 => "1",
        2 => "2",
        3 => "3",
        4 => "4",
        5 => "5",
        6 => "6",
        7 => "7",
        8 => "8",
        _ => "9",
    };
    assert(s@ =~= seq![digit(d as nat)]);
    s
}

fn decimal_string(n: u32) -> (s: String)
    ensures
        s@ == decimal(n as nat),
    decreases n,
{
    if n < 10 {
        String::from_str(digit_str(n))
    } else {
        let mut s = decimal_string(n / 10);
        s.append(digit_str(n % 10));
        assert(s@ =~= decimal(n as nat));
        s
    }
}

impl Position {
    /// Returns the position at `row` and `column`.
    pub fn new(row: u32, column: u32) -> (position: Position)
        ensures
            position.row == row,
            position.column == column,
    {
        Position { row, column }
    }

    /// The key of this position: the row and the column in decimal
    /// notation, with a `-` between them.
    pub open spec fn key(self) -> Seq<char> {
        decimal(self.row as nat) + seq![separator()] + decimal(self.column as nat)
    }

    /// Returns the key of this position as a string, such as `"3-12"`.
    pub fn to_key(&self) -> (key: String)
        ensures
            key@ == self.key(),
    {
        proof {
            reveal_strlit("-");
        }
        let mut key = decimal_string(self.row);
        key.append("-");
        let column = decimal_string(self.column);
        key.append(column.as_str());
        assert(key@ =~= self.key());
        key
    }

    /// The Manhattan distance between two positions: the difference of the
    /// rows plus the difference of the columns.
    pub open spec fn spec_distance(self, other: Position) -> nat {
        let rows = if self.row >= other.row {
            self.row - other.row
        } else {
            other.row - self.row
        };
        let columns = if self.column >= other.column {
            self.column - other.column
        } else {
            other.column - self.column
        };
        (rows + columns) as nat
    }

    /// Returns the Manhattan distance between this position and `position`.
    pub fn distance(&self, position: &Position) -> (distance: u32)
        requires
            self.spec_distance(*position) <= u32::MAX,
        ensures
            distance == self.spec_distance(*position),
    {
        let rows = if self.row >= position.row {
            self.row - position.row
        } else {
            position.row - self.row
        };
        let columns = if self.column >= position.column {
            self.column - position.column
        } else {
            position.column - self.column
        };
        rows + columns
    }
}

/// Two positions have the same key exactly when they are the same position.
pub proof fn lemma_key_injective(p: Position, q: Position)
    ensures
        p.key() == q.key() <==> p == q,
{
    if p.key() == q.key() {
        let a = decimal(p.row as nat);
        let b = decimal(q.row as nat);
        let c = decimal(p.column as nat);
        let d = decimal(q.column as nat);
        lemma_decimal_digits(p.row as nat);
        lemma_decimal_digits(q.row as nat);
        lemma_decimal_digits(p.column as nat);
        lemma_decimal_digits(q.column as nat);
        if a.len() < b.len() {
            assert(p.key()[a.len() as int] == separator());
            assert(q.key()[a.len() as int] == b[a.len() as int]);
        }
        if b.len() < a.len() {
            assert(q.key()[b.len() as int] == separator());
            assert(p.key()[b.len() as int] == a[b.len() as int]);
        }
        assert(a.len() == b.len());
        assert(a =~= p.key().subrange(0, a.len() as int));
        assert(b =~= q.key().subrange(0, a.len() as int));
        assert(c =~= p.key().subrange(a.len() as int + 1, p.key().len() as int));
        assert(d =~= q.key().subrange(a.len() as int + 1, q.key().len() as int));
        lemma_decimal_injective(p.row as nat, q.row as nat);
        lemma_decimal_injective(p.column as nat, q.column as nat);
    }
}

/// The distance from `p` to `q` is the distance from `q` to `p`.
pub proof fn lemma_distance_symmetric(p: Position, q: Position)
    ensures
        p.spec_distance(q) == q.spec_distance(p),
{
}

/// The distance between two positions is zero exactly when they are equal.
pub proof fn lemma_distance_zero(p: Position, q: Position)
    ensures
        p.spec_distance(q) == 0 <==> p == q,
{
}

/// Going through a third position never shortens the way.
pub proof fn lemma_distance_triangle(p: Position, q: Position, r: Position)
    ensures
        p.spec_distance(r) <= p.spec_distance(q) + q.spec_distance(r),
{
}

} // verus!
