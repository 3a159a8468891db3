use vstd::prelude::*;
use vstd::string::*;

verus! {

/// Whether a selected piece of text is one that the quick fix applies to:
/// exactly the word `hello`.
pub fn offers_quick_fix(selected: &str) -> (r: bool)
    ensures
        r == (selected@ == "hello"@),
{
    let target: &str = "hello";
    proof {
        reveal_strlit("hello");
    }
    let n = selected.unicode_len();
    if n != target.unicode_len() {
        return false;
    }
    let mut i: usize = 0;
    while i < n
        invariant
            n == selected@.len(),
            n == target@.len(),
            target@ == "hello"@,
            i <= n,
            forall|j: int| 0 <= j < i ==> selected@[j] == target@[j],
        decreases n - i,
    {
        if selected.get_char(i) != target.get_char(i) {
            return false;
        }
        i = i + 1;
    }
    assert(selected@ =~= target@);
    true
}

} // verus!
