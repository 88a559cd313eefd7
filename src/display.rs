use vstd::prelude::*;
use vstd::string::*;

verus! {

/// A short label for a long string: its first three characters, `...`, and
/// its last four characters.
pub fn reduce_string(input: String) -> (r: String)
    requires
        input@.len() >= 4,
    ensures
        r@ == input@.subrange(0, 3) + seq!['.', '.', '.'] + input@.subrange(
            input@.len() - 4,
            input@.len() as int,
        ),
{
    let s = input.as_str();
    let n = s.unicode_len();
    let mut output = String::new();
    output.append(s.substring_char(0, 3));
    output.append("...");
    output.append(s.substring_char(n - 4, n));
    proof {
        reveal_strlit("...");
    }
    assert(output@ =~= input@.subrange(0, 3) + seq!['.', '.', '.'] + input@.subrange(
        input@.len() - 4,
        input@.len() as int,
    ));
    output
}

} // verus!
