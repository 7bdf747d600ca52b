use vstd::prelude::*;

use crate::model::strings_view;

verus! {

/// Whether `c` has the Unicode White_Space property: the control characters
/// from tab to carriage return, the space, next line, no-break space, the
/// Ogham space mark, the spaces from en quad to hair space, the line and
/// paragraph separators, the narrow no-break space, the medium mathematical
/// space and the ideographic space.
pub open spec fn is_white_space(c: char) -> bool {
    let n = c as u32;
    ||| 0x9 <= n <= 0xD
    ||| n == 0x20
    ||| n == 0x85
    ||| n == 0xA0
    ||| n == 0x1680
    ||| 0x2000 <= n <= 0x200A
    ||| n == 0x2028
    ||| n == 0x2029
    ||| n == 0x202F
    ||| n == 0x205F
    ||| n == 0x3000
}

/// `char::is_whitespace`: whether the character has the Unicode White_Space
/// property, which the function's documentation names and the Unicode
/// character database lists.
pub assume_specification[ char::is_whitespace ](c: char) -> (r: bool)
    ensures
        r == is_white_space(c),
;

/// `String::push`: appends the character to the end of the string.
pub assume_specification[ String::push ](s: &mut String, ch: char)
    ensures
        final(s)@ == old(s)@.push(ch),
;

/// The words finished so far and the word being read, after reading `s`
/// from the left: white space ends a word, any other character extends it.
pub open spec fn split_state(s: Seq<char>) -> (Seq<Seq<char>>, Seq<char>)
    decreases s.len(),
{
    if s.len() == 0 {
        (Seq::empty(), Seq::empty())
    } else {
        let before = split_state(s.drop_last());
        let c = s.last();
        if is_white_space(c) {
            if before.1.len() > 0 {
                (before.0.push(before.1), Seq::empty())
            } else {
                before
            }
        } else {
            (before.0, before.1.push(c))
        }
    }
}

/// The terms of a text: its maximal runs of characters that are not white
/// space, in order.
pub open spec fn words(s: Seq<char>) -> Seq<Seq<char>> {
    let st = split_state(s);
    if st.1.len() > 0 {
        st.0.push(st.1)
    } else {
        st.0
    }
}

/// Splits a text into its terms: the runs of characters between white
/// space.
pub fn lex(content: &[char]) -> (r: Vec<String>)
    ensures
        strings_view(r@) == words(content@),
{
    let mut done: Vec<String> = Vec::new();
    let mut word = String::new();
    let mut in_word = false;
    let mut i: usize = 0;
    while i < content.len()
        invariant
            i <= content.len(),
            strings_view(done@) == split_state(content@.take(i as int)).0,
            word@ == split_state(content@.take(i as int)).1,
            in_word == (word@.len() > 0),
        decreases content.len() - i,
    {
        let c = content[i];
        assert(content@.take(i + 1).drop_last() =~= content@.take(i as int));
        if c.is_whitespace() {
            if in_word {
                let finished = word;
                word = String::new();
                in_word = false;
                done.push(finished);
                assert(strings_view(done@) =~= split_state(content@.take(i as int)).0.push(
                    split_state(content@.take(i as int)).1,
                ));
            }
        } else {
            word.push(c);
            in_word = true;
        }
        i = i + 1;
    }
    assert(content@.take(content.len() as int) =~= content@);
    if in_word {
        let ghost before = done@;
        done.push(word);
        assert(strings_view(done@) =~= strings_view(before).push(
            split_state(content@).1,
        ));
    }
    done
}

} // verus!
