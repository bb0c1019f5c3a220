//! Keys of static records: source meshes and merged groups.

use crate::decimal::{
    all_digits, chars_of, decimal, digits_value, is_digit, lemma_decimal, lemma_decimal_injective,
    push_decimal,
};
use crate::text::str_eq;
use vstd::prelude::*;

verus! {

/// What a static record is made of.
#[derive(Debug)]
pub enum StaticRecordKey {
    /// One source mesh, by path.
    Mesh { path: String },
    /// A merge group of an exterior cell.
    Merged { cell_x: i32, cell_y: i32, group_idx: u32 },
}

/// The numeral of a whole number, with a sign where it is negative.
pub open spec fn signed_decimal(n: int) -> Seq<char> {
    if n < 0 {
        seq!['-'] + decimal((-n) as nat)
    } else {
        decimal(n as nat)
    }
}

/// The key of a merge group.
pub open spec fn merged_key(cell_x: int, cell_y: int, group_idx: nat) -> Seq<char> {
    "CELL ("@ + signed_decimal(cell_x) + ", "@ + signed_decimal(cell_y) + ") GROUP ("@ + decimal(
        group_idx,
    ) + ")"@
}

/// The text of a record key.
pub open spec fn key_text(key: StaticRecordKey) -> Seq<char> {
    match key {
        StaticRecordKey::Mesh { path } => path@,
        StaticRecordKey::Merged { cell_x, cell_y, group_idx } => merged_key(
            cell_x as int,
            cell_y as int,
            group_idx as nat,
        ),
    }
}

/// The text is the key of some merge group.
pub open spec fn is_merged_key(text: Seq<char>) -> bool {
    exists|cell_x: i32, cell_y: i32, group_idx: u32|
        text == #[trigger] merged_key(cell_x as int, cell_y as int, group_idx as nat)
}

fn push_signed(out: &mut String, n: i32)
    ensures
        final(out)@ == old(out)@ + signed_decimal(n as int),
{
    proof {
        reveal_strlit("-");
    }
    if n < 0 {
        out.append("-");
        push_decimal(out, (-(n as i64)) as u64);
        assert(out@ =~= old(out)@ + signed_decimal(n as int));
    } else {
        push_decimal(out, n as u64);
    }
}

/// Renders the key of a merge group.
pub fn render_merged(cell_x: i32, cell_y: i32, group_idx: u32) -> (r: String)
    ensures
        r@ == merged_key(cell_x as int, cell_y as int, group_idx as nat),
{
    let mut text = "CELL (".to_owned();
    push_signed(&mut text, cell_x);
    text.append(", ");
    push_signed(&mut text, cell_y);
    text.append(") GROUP (");
    push_decimal(&mut text, group_idx as u64);
    text.append(")");
    text
}

/// The numeral `part` stands at `at`, and no digit follows.
pub open spec fn numeral_at(chars: Seq<char>, at: int, part: Seq<char>) -> bool {
    &&& 0 <= at
    &&& at + part.len() <= chars.len()
    &&& chars.subrange(at, at + part.len()) == part
    &&& at + part.len() < chars.len() ==> !is_digit(chars[at + part.len()])
}

/// Reads the digits from `at` on. The value is meaningless where it exceeds 32 bits.
fn read_digits(chars: &[char], at: usize) -> (r: (u64, usize))
    requires
        at <= chars@.len(),
    ensures
        at <= r.1 <= chars@.len(),
        r.0 <= 0x1_0000_0000,
        forall|n: u32| #[trigger]
            numeral_at(chars@, at as int, decimal(n as nat)) ==> r.0 == n && r.1 == at + decimal(
                n as nat,
            ).len(),
{
    let mut value: u64 = 0;
    let mut end: usize = at;
    let mut wide = false;
    assert(chars@.subrange(at as int, at as int) =~= Seq::<char>::empty());
    while end < chars.len() && chars[end] >= '0' && chars[end] <= '9'
        invariant
            at <= end <= chars@.len(),
            all_digits(chars@.subrange(at as int, end as int)),
            value <= 0x1_0000_0000,
            !wide ==> value == digits_value(chars@.subrange(at as int, end as int)) && value
                <= u32::MAX,
            wide ==> digits_value(chars@.subrange(at as int, end as int)) > u32::MAX,
        decreases chars@.len() - end,
    {
        let c = chars[end];
        let digit: u64 = (c as u32 - 48) as u64;
        let ghost before = chars@.subrange(at as int, end as int);
        proof {
            let now = chars@.subrange(at as int, end + 1);
            assert(now =~= before.push(c));
            assert(is_digit(c));
            assert(now.drop_last() =~= before);
            assert(digits_value(now) == 10 * digits_value(before) + digit);
        }
        if !wide {
            let next: u64 = value * 10 + digit;
            if next > 0xffff_ffff {
                wide = true;
                value = 0;
            } else {
                value = next;
            }
        }
        end = end + 1;
    }
    proof {
        let run = chars@.subrange(at as int, end as int);
        assert forall|n: u32| #[trigger] numeral_at(
            chars@,
            at as int,
            decimal(n as nat),
        ) implies value == n && end == at + decimal(n as nat).len() by {
            let part = decimal(n as nat);
            lemma_decimal(n as nat);
            let stop = at + part.len();
            if end < stop {
                assert(part[end - at] == chars@[end as int]);
                assert(is_digit(part[end - at]));
            }
            if end > stop {
                assert(run[stop - at] == chars@[stop]);
                assert(is_digit(run[stop - at]));
            }
            assert(run =~= part);
        }
    }
    (value, end)
}

/// Reads the signed numeral from `at` on. The value is meaningless where it exceeds 32 bits.
fn read_signed(chars: &[char], at: usize) -> (r: (i64, usize))
    requires
        at <= chars@.len(),
    ensures
        at <= r.1 <= chars@.len(),
        forall|n: i32| #[trigger]
            numeral_at(chars@, at as int, signed_decimal(n as int)) ==> r.0 == n && r.1 == at
                + signed_decimal(n as int).len(),
{
    if at < chars.len() && chars[at] == '-' {
        let (value, end) = read_digits(chars, at + 1);
        proof {
            assert forall|n: i32| #[trigger] numeral_at(
                chars@,
                at as int,
                signed_decimal(n as int),
            ) implies -(value as int) == n && end == at + signed_decimal(n as int).len() by {
                let part = signed_decimal(n as int);
                let whole = chars@.subrange(at as int, at + part.len());
                if n >= 0 {
                    lemma_decimal(n as nat);
                    assert(is_digit(part[0]));
                    assert(whole[0] == chars@[at as int]);
                } else {
                    let rest = decimal((-n) as nat);
                    let size = (-n) as u32;
                    assert(chars@.subrange(at + 1, at + 1 + rest.len()) =~= whole.skip(1));
                    assert(part.skip(1) =~= rest);
                    assert(numeral_at(chars@, at + 1, decimal(size as nat)));
                }
            }
        }
        (-(value as i64), end)
    } else {
        let (value, end) = read_digits(chars, at);
        proof {
            assert forall|n: i32| #[trigger] numeral_at(
                chars@,
                at as int,
                signed_decimal(n as int),
            ) implies value == n && end == at + signed_decimal(n as int).len() by {
                let part = signed_decimal(n as int);
                let whole = chars@.subrange(at as int, at + part.len());
                if n < 0 {
                    assert(part[0] == '-');
                    assert(whole[0] == chars@[at as int]);
                } else {
                    let size = n as u32;
                    assert(numeral_at(chars@, at as int, decimal(size as nat)));
                }
            }
        }
        (value as i64, end)
    }
}

/// The positions of the parts of a merge group's key.
proof fn lemma_key_parts(chars: Seq<char>, cell_x: i32, cell_y: i32, group_idx: u32)
    requires
        chars == merged_key(cell_x as int, cell_y as int, group_idx as nat),
    ensures
        ({
            let x = signed_decimal(cell_x as int);
            let y = signed_decimal(cell_y as int);
            let n = decimal(group_idx as nat);
            &&& numeral_at(chars, 6, x)
            &&& numeral_at(chars, 8int + x.len(), y)
            &&& numeral_at(chars, 17int + x.len() + y.len(), n)
            &&& chars.len() == 18int + x.len() + y.len() + n.len()
        }),
{
    let x = signed_decimal(cell_x as int);
    let y = signed_decimal(cell_y as int);
    let n = decimal(group_idx as nat);
    reveal_strlit("CELL (");
    reveal_strlit(", ");
    reveal_strlit(") GROUP (");
    reveal_strlit(")");
    assert(chars.subrange(6, 6int + x.len()) =~= x);
    assert(chars[6int + x.len()] == ',');
    assert(chars.subrange(8int + x.len(), 8int + x.len() + y.len()) =~= y);
    assert(chars[8int + x.len() + y.len()] == ')');
    assert(chars.subrange(17int + x.len() + y.len(), 17int + x.len() + y.len() + n.len()) =~= n);
    assert(chars[17int + x.len() + y.len() + n.len()] == ')');
}

/// The numbers in the key of a merge group, if the text is one.
pub fn parse_merged(text: &str) -> (r: Option<(i32, i32, u32)>)
    ensures
        match r {
            Some((cell_x, cell_y, group_idx)) => text@ == merged_key(
                cell_x as int,
                cell_y as int,
                group_idx as nat,
            ),
            None => !is_merged_key(text@),
        },
{
    let chars = chars_of(text);
    let total: usize = chars.len();
    proof {
        assert forall|x: i32, y: i32, n: u32| text@ == #[trigger] merged_key(
            x as int,
            y as int,
            n as nat,
        ) implies ({
            let sx = signed_decimal(x as int);
            let sy = signed_decimal(y as int);
            &&& numeral_at(chars@, 6, sx)
            &&& numeral_at(chars@, 8int + sx.len(), sy)
            &&& numeral_at(chars@, 17int + sx.len() + sy.len(), decimal(n as nat))
            &&& total >= 18int + sx.len() + sy.len()
        }) by {
            lemma_key_parts(text@, x, y, n);
        }
    }
    if total < 6 {
        return None;
    }
    let (cell_x, after_x) = read_signed(chars.as_slice(), 6);
    if total - after_x < 2 {
        return None;
    }
    let (cell_y, after_y) = read_signed(chars.as_slice(), after_x + 2);
    if total - after_y < 9 {
        return None;
    }
    let (group_idx, _) = read_digits(chars.as_slice(), after_y + 9);
    if cell_x < -0x8000_0000 || cell_x > 0x7fff_ffff || cell_y < -0x8000_0000 || cell_y
        > 0x7fff_ffff || group_idx > 0xffff_ffff {
        return None;
    }
    let (x, y, n): (i32, i32, u32) = (cell_x as i32, cell_y as i32, group_idx as u32);
    if str_eq(render_merged(x, y, n).as_str(), text) {
        Some((x, y, n))
    } else {
        None
    }
}

impl StaticRecordKey {
    /// The text of the key.
    pub fn render(&self) -> (r: String)
        ensures
            r@ == key_text(*self),
    {
        match self {
            StaticRecordKey::Mesh { path } => path.clone(),
            StaticRecordKey::Merged { cell_x, cell_y, group_idx } => render_merged(
                *cell_x,
                *cell_y,
                *group_idx,
            ),
        }
    }

    /// The key with this text: a merge group where the text names one, else a mesh path.
    pub fn parse(text: &str) -> (r: Self)
        ensures
            key_text(r) == text@,
            r is Merged <==> is_merged_key(text@),
    {
        match parse_merged(text) {
            Some((cell_x, cell_y, group_idx)) => StaticRecordKey::Merged {
                cell_x,
                cell_y,
                group_idx,
            },
            None => StaticRecordKey::Mesh { path: text.to_owned() },
        }
    }
}

/// Different merge groups have different keys.
pub proof fn lemma_merged_keys_distinct(a: (i32, i32, u32), b: (i32, i32, u32))
    requires
        merged_key(a.0 as int, a.1 as int, a.2 as nat) == merged_key(
            b.0 as int,
            b.1 as int,
            b.2 as nat,
        ),
    ensures
        a == b,
{
    let chars = merged_key(a.0 as int, a.1 as int, a.2 as nat);
    lemma_key_parts(chars, a.0, a.1, a.2);
    lemma_key_parts(chars, b.0, b.1, b.2);
    lemma_signed_unique(chars, 6, a.0, b.0);
    lemma_signed_unique(chars, 8int + signed_decimal(a.0 as int).len(), a.1, b.1);
    let at = 17int + signed_decimal(a.0 as int).len() + signed_decimal(a.1 as int).len();
    lemma_decimal(a.2 as nat);
    lemma_decimal(b.2 as nat);
    lemma_decimal_injective(a.2 as nat, b.2 as nat);
}

proof fn lemma_signed_unique(chars: Seq<char>, at: int, a: i32, b: i32)
    requires
        numeral_at(chars, at, signed_decimal(a as int)),
        numeral_at(chars, at, signed_decimal(b as int)),
    ensures
        a == b,
{
    let x = signed_decimal(a as int);
    let y = signed_decimal(b as int);
    let na = (if a < 0 {
        -a
    } else {
        a as int
    }) as nat;
    let nb = (if b < 0 {
        -b
    } else {
        b as int
    }) as nat;
    lemma_decimal(na);
    lemma_decimal(nb);
    let wx = chars.subrange(at, at + x.len());
    let wy = chars.subrange(at, at + y.len());
    assert(wx[0] == chars[at] && wy[0] == chars[at]);
    assert(x[0] == y[0]);
    assert(is_digit(decimal(na)[0]));
    assert(is_digit(decimal(nb)[0]));
    assert((a < 0) == (b < 0));
    if x.len() < y.len() {
        assert(wy[x.len() as int] == chars[at + x.len()]);
        if a < 0 {
            assert(y[x.len() as int] == decimal(nb)[x.len() - 1]);
        }
        assert(is_digit(y[x.len() as int]));
    }
    if y.len() < x.len() {
        assert(wx[y.len() as int] == chars[at + y.len()]);
        if a < 0 {
            assert(x[y.len() as int] == decimal(na)[y.len() - 1]);
        }
        assert(is_digit(x[y.len() as int]));
    }
    assert(x == y);
    if a < 0 {
        assert(x.skip(1) =~= decimal(na));
        assert(y.skip(1) =~= decimal(nb));
    }
    lemma_decimal_injective(na, nb);
}

} // verus!
