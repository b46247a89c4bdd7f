//! The names of segment files.
use vstd::prelude::*;
use vstd::string::StringExecFns;

verus! {

/// How many digits a file name has at least.
pub const NAME_WIDTH: u64 = 15;

/// The character of a decimal digit.
pub open spec fn digit(d: nat) -> char {
    ('0' as int + d) as char
}

/// `n` in decimal, filled up with zeros from the left to `width` digits.
pub open spec fn zero_padded(n: nat, width: nat) -> Seq<char>
    decreases n, width,
{
    if n == 0 && width == 0 {
        Seq::empty()
    } else {
        zero_padded(
            n / 10,
            if width > 0 {
                (width - 1) as nat
            } else {
                0
            },
        ).push(digit(n % 10))
    }
}

/// The name of the file whose first message has the number `start_id`.
pub open spec fn file_name(start_id: u64, ext: Seq<char>) -> Seq<char> {
    zero_padded(start_id as nat, NAME_WIDTH as nat) + seq!['.'] + ext
}

/// A decimal digit as text.
fn digit_text(d: u64) -> (text: &'static str)
    requires
        d < 10,
    ensures
        text@ == seq![digit(d as nat)],
{
    proof {
        reveal_strlit("0");
        reveal_strlit("1");
        reveal_strlit("2");
        reveal_strlit("3");
        reveal_strlit("4");
        reveal_strlit("5");
        reveal_strlit("6");
        reveal_strlit("7");
        reveal_strlit("8");
        reveal_strlit("9");
    }
    let text: &'static str = match d {
        0 => "0",
        1 => "1",
        2 => "2",
        3 => "3",
        4 => "4",
        5 => "5",
        6 => "6",
        7 => "7",
        8 => "8",
        _ => "9",
    };
    assert(text@ =~= seq![digit(d as nat)]);
    text
}

/// Writes `n` in decimal behind `name`, with at least `width` digits.
fn push_zero_padded(name: &mut String, n: u64, width: u64)
    ensures
        final(name)@ == old(name)@ + zero_padded(n as nat, width as nat),
    decreases n, width,
{
    if n == 0 && width == 0 {
        assert(name@ =~= old(name)@ + zero_padded(n as nat, width as nat));
        return;
    }
    push_zero_padded(
        name,
        n / 10,
        if width > 0 {
            width - 1
        } else {
            0
        },
    );
    name.append(digit_text(n % 10));
    assert(name@ =~= old(name)@ + zero_padded(n as nat, width as nat));
}

/// The name of the file whose first message has the number `start_id`.
pub fn gen_file_name(start_id: u64, ext: &str) -> (name: String)
    ensures
        name@ == file_name(start_id, ext@),
{
    let mut name = String::new();
    push_zero_padded(&mut name, start_id, NAME_WIDTH);
    proof {
        reveal_strlit(".");
    }
    name.append(".");
    name.append(ext);
    assert(name@ =~= file_name(start_id, ext@));
    name
}

/// Different numbers are written differently.
proof fn lemma_zero_padded_injective(a: nat, b: nat, width: nat)
    requires
        zero_padded(a, width) == zero_padded(b, width),
    ensures
        a == b,
    decreases a, width,
{
    let w = if width > 0 {
        (width - 1) as nat
    } else {
        0
    };
    let x = zero_padded(a, width);
    let y = zero_padded(b, width);
    if a == 0 && width == 0 {
        assert(y.len() == 0);
    } else {
        assert(x.len() > 0);
        assert(x.drop_last() =~= zero_padded(a / 10, w));
        assert(y.drop_last() =~= zero_padded(b / 10, w));
        assert(x.last() == digit(a % 10) && y.last() == digit(b % 10));
        lemma_zero_padded_injective(a / 10, b / 10, w);
    }
}

/// Two segments never share a file: files that start with different messages
/// have different names.
pub proof fn law_file_names_differ(a: u64, b: u64, ext: Seq<char>)
    requires
        a != b,
    ensures
        file_name(a, ext) != file_name(b, ext),
{
    if file_name(a, ext) == file_name(b, ext) {
        let x = zero_padded(a as nat, NAME_WIDTH as nat);
        let y = zero_padded(b as nat, NAME_WIDTH as nat);
        let f = file_name(a, ext);
        assert(x.len() == f.len() - 1 - ext.len());
        assert(y.len() == f.len() - 1 - ext.len());
        assert(f.take(x.len() as int) =~= x);
        assert(file_name(b, ext).take(x.len() as int) =~= y);
        lemma_zero_padded_injective(a as nat, b as nat, NAME_WIDTH as nat);
    }
}

/// The number that a row of decimal digits stands for.
pub open spec fn decimal(digits: Seq<char>) -> int
    decreases digits.len(),
{
    if digits.len() == 0 {
        0
    } else {
        10 * decimal(digits.drop_last()) + (digits.last() as int - '0' as int)
    }
}

/// A number is written in decimal digits, as many as asked for at least and no
/// more than it needs beyond that.
proof fn lemma_zero_padded_digits(n: nat, width: nat)
    ensures
        ({
            let digits = zero_padded(n, width);
            &&& decimal(digits) == n
            &&& digits.len() >= width
            &&& digits.len() > width ==> digits[0] != '0'
            &&& forall|i: int| 0 <= i < digits.len() ==> '0' <= #[trigger] digits[i] <= '9'
        }),
    decreases n, width,
{
    if n > 0 || width > 0 {
        let w = if width > 0 {
            (width - 1) as nat
        } else {
            0
        };
        let digits = zero_padded(n, width);
        let front = zero_padded(n / 10, w);
        lemma_zero_padded_digits(n / 10, w);
        assert(digits.drop_last() =~= front);
        assert forall|i: int| 0 <= i < digits.len() implies '0' <= #[trigger] digits[i]
            <= '9' by {
            if i < front.len() {
                assert(digits[i] == front[i]);
            }
        }
        if digits.len() > width {
            if front.len() > 0 {
                assert(digits[0] == front[0]);
            }
        }
    }
}

/// The name of a file is the number of its first message in decimal, with zeros
/// in front of it up to fifteen digits and none beyond that, then a dot and the
/// extension.
pub proof fn law_file_name_layout(start_id: u64, ext: Seq<char>)
    ensures
        ({
            let name = file_name(start_id, ext);
            let n = name.len() - 1 - ext.len();
            let digits = name.take(n);
            &&& n >= 15
            &&& n > 15 ==> name[0] != '0'
            &&& forall|i: int| 0 <= i < n ==> '0' <= #[trigger] name[i] <= '9'
            &&& decimal(digits) == start_id
            &&& name[n] == '.'
            &&& name.skip(n + 1) == ext
        }),
{
    let name = file_name(start_id, ext);
    let digits = zero_padded(start_id as nat, 15);
    lemma_zero_padded_digits(start_id as nat, 15);
    let n = name.len() - 1 - ext.len();
    assert(n == digits.len());
    assert(name.take(n) =~= digits);
    assert forall|i: int| 0 <= i < n implies '0' <= #[trigger] name[i] <= '9' by {
        assert(name[i] == digits[i]);
    }
    assert(name.skip(n + 1) =~= ext);
}

} // verus!
