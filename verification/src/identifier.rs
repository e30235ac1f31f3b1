use vstd::prelude::*;

verus! {

/// The character of a decimal digit.
pub open spec fn digit(value: nat) -> char {
    if value == 0 {
        '0'
    } else if value == 1 {
        '1'
    } else if value == 2 {
        '2'
    } else if value == 3 {
        '3'
    } else if value == 4 {
        '4'
    } else if value == 5 {
        '5'
    } else if value == 6 {
        '6'
    } else if value == 7 {
        '7'
    } else if value == 8 {
        '8'
    } else {
        '9'
    }
}

/// A number in decimal, without leading zeros.
pub open spec fn decimal(number: nat) -> Seq<char>
    decreases number,
{
    if number < 10 {
        seq![digit(number)]
    } else {
        decimal(number / 10).push(digit(number % 10))
    }
}

/// The identifier of the entry that is numbered `ordinal` and whose file has
/// the extension `extension`: the number, a dot, the extension.
pub open spec fn identifier_of(ordinal: nat, extension: Seq<char>) -> Seq<char> {
    decimal(ordinal) + seq!['.'] + extension
}

fn digit_text(value: u64) -> (text: &'static str)
    requires
        value < 10,
    ensures
        text@ == seq![digit(value as nat)],
{
    proof {
        reveal_strlit("0");
        reveal_strlit("1");
        reveal_strlit("2");
        reveal_strlit("3");
        reveal_strlit("4");
        reveal_strlit("5");
        reveal_strlit("6");
        reveal_strlit("7");
        reveal_strlit("8");
        reveal_strlit("9");
    }
    let text = if value == 0 {
        "0"
    } else if value == 1 {
        "1"
    } else if value == 2 {
        "2"
    } else if value == 3 {
        "3"
    } else if value == 4 {
        "4"
    } else if value == 5 {
        "5"
    } else if value == 6 {
        "6"
    } else if value == 7 {
        "7"
    } else if value == 8 {
        "8"
    } else {
        "9"
    };
    proof {
        assert(text@ =~= seq![digit(value as nat)]);
    }
    text
}

/// `number` in decimal.
pub fn decimal_text(number: u64) -> (text: String)
    ensures
        text@ == decimal(number as nat),
    decreases number,
{
    if number < 10 {
        digit_text(number).to_owned()
    } else {
        let mut text = decimal_text(number / 10);
        text.append(digit_text(number % 10));
        proof {
            assert(text@ =~= decimal(number as nat));
        }
        text
    }
}

/// The identifier of the entry numbered `ordinal`. Entries with different
/// numbers have different identifiers, whatever their files are called.
pub fn identifier(ordinal: u64, extension: &str) -> (name: String)
    ensures
        name@ == identifier_of(ordinal as nat, extension@),
{
    proof {
        reveal_strlit(".");
    }
    let mut name = decimal_text(ordinal);
    name.append(".");
    name.append(extension);
    proof {
        assert("."@ =~= seq!['.']);
        assert(name@ =~= identifier_of(ordinal as nat, extension@));
    }
    name
}

/// The number that a sequence of digits stands for.
pub open spec fn value_of(digits: Seq<char>) -> nat
    decreases digits.len(),
{
    if digits.len() == 0 {
        0
    } else {
        let last = digits.last();
        let unit: nat = if last == '1' {
            1
        } else if last == '2' {
            2
        } else if last == '3' {
            3
        } else if last == '4' {
            4
        } else if last == '5' {
            5
        } else if last == '6' {
            6
        } else if last == '7' {
            7
        } else if last == '8' {
            8
        } else if last == '9' {
            9
        } else {
            0
        };
        value_of(digits.drop_last()) * 10 + unit
    }
}

/// A number in decimal stands for that number, has at least one digit, and
/// holds no dot.
pub proof fn lemma_decimal(number: nat)
    ensures
        value_of(decimal(number)) == number,
        decimal(number).len() > 0,
        forall|i: int| 0 <= i < decimal(number).len() ==> decimal(number)[i] != '.',
    decreases number,
{
    if number < 10 {
        assert(decimal(number).drop_last() =~= Seq::<char>::empty());
        assert(value_of(decimal(number).drop_last()) == 0);
    } else {
        lemma_decimal(number / 10);
        assert(decimal(number).drop_last() =~= decimal(number / 10));
        assert(decimal(number).last() == digit(number % 10));
    }
}

/// Entries with different numbers have different identifiers.
pub proof fn lemma_identifiers_differ(
    ordinal: nat,
    extension: Seq<char>,
    other: nat,
    other_extension: Seq<char>,
)
    requires
        ordinal != other,
    ensures
        identifier_of(ordinal, extension) != identifier_of(other, other_extension),
{
    lemma_decimal(ordinal);
    lemma_decimal(other);
    let left = identifier_of(ordinal, extension);
    let right = identifier_of(other, other_extension);
    let one = decimal(ordinal);
    let two = decimal(other);
    if left == right {
        assert(left[one.len() as int] == '.');
        assert(right[two.len() as int] == '.');
        if one.len() < two.len() {
            assert(right[one.len() as int] == two[one.len() as int]);
        } else if two.len() < one.len() {
            assert(left[two.len() as int] == one[two.len() as int]);
        }
        assert(one =~= two) by {
            assert forall|i: int| 0 <= i < one.len() implies one[i] == two[i] by {
                assert(left[i] == one[i]);
                assert(right[i] == two[i]);
            }
        }
    }
}

} // verus!
