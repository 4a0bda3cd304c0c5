//! Bindings, rebinding and moves, shown on small values.

use vstd::prelude::*;
use vstd::string::StringExecFns;
use crate::text::{join, joined, signed_decimal, signed_decimal_string, texts};

verus! {

/// What stands before the value in the account of rebinding.
pub open spec fn mutability_head() -> Seq<char> {
    "let _immutable = String::from(...) 같은 immutable(불변 변수)는 재할당이 일어나면 컴파일 타임에 에러가 발생하지만 let mut _mutable: String = String::from(...) 같은 mutable(가변 변수)는 재할당이 가능하다. 그 결과 mutable은 mutable에서 "@
}

/// What stands behind the value in the account of rebinding.
pub open spec fn mutability_tail() -> Seq<char> {
    "가 된다."@
}

/// Says what may be rebound and what may not, and shows the value that a
/// mutable binding holds after it was assigned anew.
pub fn describe_mutability() -> (out: String)
    ensures
        out@ == mutability_head() + "new mutable"@ + mutability_tail(),
{
    let _immutable: String = "immutable".to_owned();
    let mut _mutable: String = "mutable".to_owned();
    _mutable = "new mutable".to_owned();
    let mut out: String = "let _immutable = String::from(...) 같은 immutable(불변 변수)는 재할당이 일어나면 컴파일 타임에 에러가 발생하지만 let mut _mutable: String = String::from(...) 같은 mutable(가변 변수)는 재할당이 가능하다. 그 결과 mutable은 mutable에서 ".to_owned();
    out.append(_mutable.as_str());
    out.append("가 된다.");
    out
}

/// The items between square brackets, separated by a comma and a space.
pub open spec fn bracketed(items: Seq<Seq<char>>) -> Seq<char> {
    seq!['['] + joined(items, seq![',', ' ']) + seq![']']
}

/// The text between double quotes.
pub open spec fn quoted(text: Seq<char>) -> Seq<char> {
    seq!['"'] + text + seq!['"']
}

/// The numerals of the values.
pub open spec fn numerals(values: Seq<i32>) -> Seq<Seq<char>> {
    Seq::new(values.len(), |i: int| signed_decimal(values[i] as int))
}

/// Each text between double quotes.
pub open spec fn all_quoted(items: Seq<Seq<char>>) -> Seq<Seq<char>> {
    Seq::new(items.len(), |i: int| quoted(items[i]))
}

/// Writes the items as a bracketed list.
fn list_text(items: &Vec<String>) -> (out: String)
    ensures
        out@ == bracketed(texts(items@)),
{
    proof {
        reveal_strlit("[");
        reveal_strlit("]");
        reveal_strlit(", ");
    }
    let body = join(items, ", ");
    let mut out: String = "[".to_owned();
    out.append(body.as_str());
    out.append("]");
    assert(", "@ =~= seq![',', ' ']);
    assert(out@ =~= bracketed(texts(items@)));
    out
}

/// One name bound three times: to numbers, to their numerals, and to the
/// numerals joined. Returns how the value looked at each stage.
pub fn shadow_example() -> (history: Vec<String>)
    ensures
        history@.len() == 3,
        history@[0]@ == bracketed(numerals(seq![1i32, 2i32, 3i32])),
        history@[1]@ == bracketed(all_quoted(numerals(seq![1i32, 2i32, 3i32]))),
        history@[2]@ == joined(numerals(seq![1i32, 2i32, 3i32]), seq![',', ' ']),
{
    let mut history: Vec<String> = Vec::new();
    let mut v: Vec<i32> = Vec::new();
    v.push(1);
    v.push(2);
    v.push(3);
    assert(v@ =~= seq![1i32, 2i32, 3i32]);
    let mut plain: Vec<String> = Vec::new();
    let mut in_quotes: Vec<String> = Vec::new();
    let mut i: usize = 0;
    while i < v.len()
        invariant
            i <= v@.len(),
            plain@.len() == i,
            in_quotes@.len() == i,
            forall|k: int| 0 <= k < i ==> (#[trigger] plain@[k])@ == signed_decimal(v@[k] as int),
            forall|k: int|
                0 <= k < i ==> (#[trigger] in_quotes@[k])@ == quoted(signed_decimal(v@[k] as int)),
        decreases v@.len() - i,
    {
        let numeral = signed_decimal_string(v[i]);
        let mut wrapped: String = "\"".to_owned();
        wrapped.append(numeral.as_str());
        wrapped.append("\"");
        proof {
            reveal_strlit("\"");
            assert(wrapped@ =~= quoted(numeral@));
        }
        plain.push(numeral);
        in_quotes.push(wrapped);
        i += 1;
    }
    assert(texts(plain@) =~= numerals(v@));
    assert(texts(in_quotes@) =~= all_quoted(numerals(v@)));
    history.push(list_text(&plain));
    let v: Vec<String> = plain;
    history.push(list_text(&in_quotes));
    let v: String = join(&v, ", ");
    proof {
        reveal_strlit(", ");
        assert(", "@ =~= seq![',', ' ']);
    }
    history.push(v.clone());
    history
}

/// Why a value cannot be read after it was moved.
pub open spec fn moved_value_notice() -> Seq<char> {
    "a는 소유권(ownership)이 _b로 이동(move)되었기 때문에 사용될 수 없다."@
}

/// Moves a value into a second binding and reports that the first can no
/// longer be used: always an error, with that notice.
pub fn move_semantics_demo() -> (out: Result<(), String>)
    ensures
        out is Err,
        out->Err_0@ == moved_value_notice(),
{
    let a: String = "a".to_owned();
    let _b = a;
    Err("a는 소유권(ownership)이 _b로 이동(move)되었기 때문에 사용될 수 없다.".to_owned())
}

} // verus!
