//! Borrowing without taking ownership: reading through a shared reference,
//! writing through the one mutable reference, and sharing a slice.

use vstd::prelude::*;
use vstd::slice::slice_subrange;
use vstd::string::StringExecFns;

verus! {

/// What stands before the message in the note on borrowing.
pub open spec fn borrowing_head() -> Seq<char> {
    "Rust가 `&str`을 불변 참조(immutable reference)로 빌릴 때, 원본 메시지 `"@
}

/// What stands behind the message in the note on borrowing.
pub open spec fn borrowing_tail() -> Seq<char> {
    "`는 여전히 그대로 남습니다.\n- immutable reference 는 여러 스레드가 동시에 읽어도 no data race 를 보장합니다.\n- 소유권(ownership) 이동 없이 참조만 공유하므로 블록체인 노드 상태를 읽기 전용으로 확인할 때 안전합니다."@
}

/// Explains what a shared borrow of `message` allows; the message itself is
/// quoted in the note and left as it was.
pub fn annotate_borrowing(message: &str) -> (out: String)
    ensures
        out@ == borrowing_head() + message@ + borrowing_tail(),
{
    let mut out: String = "Rust가 `&str`을 불변 참조(immutable reference)로 빌릴 때, 원본 메시지 `".to_owned();
    out.append(message);
    out.append("`는 여전히 그대로 남습니다.\n- immutable reference 는 여러 스레드가 동시에 읽어도 no data race 를 보장합니다.\n- 소유권(ownership) 이동 없이 참조만 공유하므로 블록체인 노드 상태를 읽기 전용으로 확인할 때 안전합니다.");
    out
}

/// Applies `delta` to the balance unless the balance would become negative.
///
/// The sum must fit the balance's type.
pub fn mutate_wallet(balance: &mut i64, delta: i64) -> (out: Result<(), String>)
    requires
        i64::MIN <= *old(balance) + delta <= i64::MAX,
    ensures
        *old(balance) + delta < 0 ==> out is Err && out->Err_0@ == "Balance is negative"@
            && *final(balance) == *old(balance),
        *old(balance) + delta >= 0 ==> out is Ok && *final(balance) == *old(balance) + delta,
{
    if *balance + delta < 0 {
        return Err("Balance is negative".to_owned());
    }
    *balance = *balance + delta;
    Ok(())
}

/// How many leading elements the summary shows.
pub open spec fn shown_len(len: nat) -> nat {
    if len < 3 {
        len
    } else {
        3
    }
}

/// Returns the first three block heights (fewer where there are fewer), as a
/// view into the same slice, together with the number of heights.
pub fn summarize_slice<'a>(blocks: &'a [u64]) -> (out: (&'a [u64], usize))
    ensures
        out.0@ == blocks@.take(shown_len(blocks@.len()) as int),
        out.1 == blocks@.len(),
{
    let len = blocks.len();
    let shown = if len < 3 { len } else { 3 };
    (slice_subrange(blocks, 0, shown), len)
}

} // verus!
