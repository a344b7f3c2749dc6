//! Text of the feed: folder names and blank fields.

use vstd::prelude::*;

verus! {

/// What `str::to_lowercase` makes of a text.
pub uninterp spec fn lowercase(text: Seq<char>) -> Seq<char>;

/// Whether `char::is_alphanumeric` holds of a character.
pub uninterp spec fn alphanumeric(c: char) -> bool;

/// `str::to_lowercase`: the result depends on the text alone.  What it is for a given text, the
/// tables of Unicode say; nothing is claimed of that here.
pub assume_specification[ str::to_lowercase ](text: &str) -> (result: String)
    ensures
        result@ == lowercase(text@),
;

/// `char::is_alphanumeric`: the result depends on the character alone.  Which characters are
/// alphanumeric, the tables of Unicode say; nothing is claimed of that here.
pub assume_specification[ char::is_alphanumeric ](c: char) -> (result: bool)
    ensures
        result == alphanumeric(c),
;

/// `String::push` appends the character.
pub assume_specification[ String::push ](text: &mut String, c: char)
    ensures
        final(text)@ == old(text)@.push(c),
;

/// The characters with the Unicode property White_Space.
pub open spec fn white_space(c: char) -> bool {
    ||| '\u{9}' <= c <= '\u{d}'
    ||| c == '\u{20}'
    ||| c == '\u{85}'
    ||| c == '\u{a0}'
    ||| c == '\u{1680}'
    ||| '\u{2000}' <= c <= '\u{200a}'
    ||| c == '\u{2028}'
    ||| c == '\u{2029}'
    ||| c == '\u{202f}'
    ||| c == '\u{205f}'
    ||| c == '\u{3000}'
}

/// The text without the white space at its start and its end.
pub open spec fn trimmed(text: Seq<char>) -> Seq<char>
    decreases text.len(),
{
    if text.len() == 0 {
        text
    } else if white_space(text.first()) {
        trimmed(text.drop_first())
    } else if white_space(text.last()) {
        trimmed(text.drop_last())
    } else {
        text
    }
}

/// `str::trim` takes away the white space, in the sense of Unicode, at both ends.
pub assume_specification[ str::trim ](text: &str) -> (result: &str)
    ensures
        result@ == trimmed(text@),
;

/// The trimmed text of a field, unless the field is missing or blank.
pub open spec fn nonblank(field: Option<Seq<char>>) -> Option<Seq<char>> {
    match field {
        Some(text) => if trimmed(text).len() == 0 {
            None
        } else {
            Some(trimmed(text))
        },
        None => None,
    }
}

/// The text of an optional text, for use in contracts.
pub open spec fn text_of(field: Option<String>) -> Option<Seq<char>> {
    match field {
        Some(text) => Some(text@),
        None => None,
    }
}

/// Reads an optional field: what is left after trimming, if anything is.
pub fn nonblank_field(field: &Option<String>) -> (result: Option<String>)
    ensures
        text_of(result) == nonblank(text_of(*field)),
{
    match field {
        Some(text) => {
            let kept: &str = text.as_str().trim();
            if kept.is_empty() {
                None
            } else {
                Some(kept.to_owned())
            }
        },
        None => None,
    }
}

/// How a character is spelled in a folder name.
pub open spec fn spelled(c: char) -> Seq<char> {
    if c == 'ä' {
        seq!['a', 'e']
    } else if c == 'ö' {
        seq!['o', 'e']
    } else if c == 'ü' {
        seq!['u', 'e']
    } else if c == 'ß' {
        seq!['s', 's']
    } else {
        seq![c]
    }
}

/// The text with each character spelled as in a folder name.
pub open spec fn spelled_out(text: Seq<char>) -> Seq<char>
    decreases text.len(),
{
    if text.len() == 0 {
        Seq::empty()
    } else {
        spelled_out(text.drop_last()) + spelled(text.last())
    }
}

/// The text with an underscore in place of each character that is not kept.
pub open spec fn with_gaps(text: Seq<char>, kept: Seq<bool>) -> Seq<char> {
    Seq::new(text.len(), |i: int| if kept[i] { text[i] } else { '_' })
}

/// The stretches of the text between underscores, empty ones included.
pub open spec fn pieces(text: Seq<char>) -> Seq<Seq<char>>
    decreases text.len(),
{
    if text.len() == 0 {
        seq![Seq::empty()]
    } else if text.last() == '_' {
        pieces(text.drop_last()).push(Seq::empty())
    } else {
        let before = pieces(text.drop_last());
        before.drop_last().push(before.last().push(text.last()))
    }
}

/// The pieces that are not empty.
pub open spec fn nonempty(list: Seq<Seq<char>>) -> Seq<Seq<char>>
    decreases list.len(),
{
    if list.len() == 0 {
        Seq::empty()
    } else if list.last().len() == 0 {
        nonempty(list.drop_last())
    } else {
        nonempty(list.drop_last()).push(list.last())
    }
}

/// The words with one underscore between any two neighbours.
pub open spec fn joined(words: Seq<Seq<char>>) -> Seq<char>
    decreases words.len(),
{
    if words.len() == 0 {
        Seq::empty()
    } else if words.len() == 1 {
        words[0]
    } else {
        joined(words.drop_last()).push('_') + words.last()
    }
}

/// The words of a text, joined by underscores.
pub open spec fn underscored(text: Seq<char>) -> Seq<char> {
    joined(nonempty(pieces(text)))
}

/// Which characters of the text are alphanumeric.
pub open spec fn alphanumerics(text: Seq<char>) -> Seq<bool> {
    Seq::new(text.len(), |i: int| alphanumeric(text[i]))
}

/// The folder name that a lower-case name gives.
pub open spec fn folder_name(lower: Seq<char>) -> Seq<char> {
    let text = spelled_out(lower);
    underscored(with_gaps(text, alphanumerics(text)))
}

/// Spells out umlauts and the sharp s.
pub fn spell_out(lower: &str) -> (result: Vec<char>)
    ensures
        result@ == spelled_out(lower@),
{
    let mut result: Vec<char> = Vec::new();
    assert(lower@.take(0) =~= Seq::<char>::empty());
    for c in it: lower.chars()
        invariant
            it.seq() == lower@,
            result@ == spelled_out(lower@.take(it.index())),
    {
        let ghost next = lower@.take(it.index() + 1);
        assert(next.drop_last() =~= lower@.take(it.index()));
        assert(next.last() == c);
        let ghost before = result@;
        if c == 'ä' {
            result.push('a');
            result.push('e');
        } else if c == 'ö' {
            result.push('o');
            result.push('e');
        } else if c == 'ü' {
            result.push('u');
            result.push('e');
        } else if c == 'ß' {
            result.push('s');
            result.push('s');
        } else {
            result.push(c);
        }
        assert(result@ =~= before + spelled(c));
    }
    assert(lower@.take(lower@.len() as int) =~= lower@);
    result
}

/// Tells which characters are alphanumeric.
pub fn find_alphanumerics(text: &Vec<char>) -> (result: Vec<bool>)
    ensures
        result@ == alphanumerics(text@),
{
    let mut result: Vec<bool> = Vec::new();
    let mut i: usize = 0;
    while i < text.len()
        invariant
            i <= text.len(),
            result@ =~= alphanumerics(text@).take(i as int),
        decreases text.len() - i,
    {
        result.push(text[i].is_alphanumeric());
        i += 1;
    }
    result
}

/// Joins the words of kept characters by underscores.  An underscore belongs to no word.
pub fn join_words(text: &Vec<char>, kept: &Vec<bool>) -> (result: String)
    requires
        kept@.len() == text@.len(),
    ensures
        result@ == underscored(with_gaps(text@, kept@)),
{
    let ghost gapped = with_gaps(text@, kept@);
    let mut result: String = String::new();
    let mut in_word: bool = false;
    let mut any_word: bool = false;
    let mut i: usize = 0;
    assert(gapped.take(0) =~= Seq::<char>::empty());
    proof {
        reveal_with_fuel(nonempty, 2);
        reveal_with_fuel(pieces, 2);
        assert(pieces(gapped.take(0)).drop_last() =~= Seq::<Seq<char>>::empty());
    }
    while i < text.len()
        invariant
            i <= text.len(),
            kept@.len() == text@.len(),
            gapped == with_gaps(text@, kept@),
            pieces(gapped.take(i as int)).len() > 0,
            result@ == underscored(gapped.take(i as int)),
            in_word == (pieces(gapped.take(i as int)).last().len() > 0),
            any_word == (nonempty(pieces(gapped.take(i as int))).len() > 0),
        decreases text.len() - i,
    {
        let ghost before = pieces(gapped.take(i as int));
        let ghost after = pieces(gapped.take(i + 1));
        assert(gapped.take(i + 1).drop_last() =~= gapped.take(i as int));
        assert(gapped.take(i + 1).last() == gapped[i as int]);
        if kept[i] && text[i] != '_' {
            let c: char = text[i];
            if !in_word && any_word {
                result.push('_');
            }
            result.push(c);
            proof {
                assert(after == before.drop_last().push(before.last().push(c)));
                assert(after.drop_last() =~= before.drop_last());
                let done = nonempty(before.drop_last());
                assert(nonempty(after) == done.push(before.last().push(c)));
                assert(nonempty(after).drop_last() =~= done);
                if before.last().len() == 0 {
                    assert(nonempty(before) == done);
                } else {
                    assert(nonempty(before) == done.push(before.last()));
                    assert(nonempty(before).drop_last() =~= done);
                }
                assert(result@ =~= joined(nonempty(after)));
            }
            in_word = true;
            any_word = true;
        } else {
            assert(after == before.push(Seq::empty()));
            assert(after.drop_last() =~= before);
            in_word = false;
        }
        i += 1;
    }
    assert(gapped.take(i as int) =~= gapped);
    result
}

/// The folder name of a state: lower case, umlauts spelled out, and one underscore in place of
/// whatever separates the words.
pub fn transliterate_state_name(name: &str) -> (result: String)
    ensures
        result@ == folder_name(lowercase(name@)),
{
    let lower: String = name.to_lowercase();
    let text: Vec<char> = spell_out(lower.as_str());
    let kept: Vec<bool> = find_alphanumerics(&text);
    join_words(&text, &kept)
}

/// Whether the word has characters, none of them an underscore, and all of them in the text.
spec fn word_of(word: Seq<char>, text: Seq<char>) -> bool {
    &&& word.len() > 0
    &&& stretch_of(word, text)
}

spec fn stretch_of(piece: Seq<char>, text: Seq<char>) -> bool {
    forall|i: int| 0 <= i < piece.len() ==> #[trigger] piece[i] != '_' && text.contains(piece[i])
}

proof fn lemma_pieces_are_stretches(text: Seq<char>)
    ensures
        pieces(text).len() > 0,
        forall|k: int| 0 <= k < pieces(text).len() ==> stretch_of(#[trigger] pieces(text)[k], text),
    decreases text.len(),
{
    if text.len() > 0 {
        let shorter = text.drop_last();
        lemma_pieces_are_stretches(shorter);
        assert forall|c: char| shorter.contains(c) implies text.contains(c) by {
            let i = choose|i: int| 0 <= i < shorter.len() && shorter[i] == c;
            assert(text[i] == c);
        }
        assert(text[text.len() - 1] == text.last());
        assert forall|k: int| 0 <= k < pieces(text).len() implies stretch_of(
            #[trigger] pieces(text)[k],
            text,
        ) by {
            if k < pieces(shorter).len() {
                assert(stretch_of(pieces(shorter)[k], shorter));
            }
        }
    }
}

proof fn lemma_nonempty_are_words(list: Seq<Seq<char>>, text: Seq<char>)
    requires
        forall|k: int| 0 <= k < list.len() ==> stretch_of(#[trigger] list[k], text),
    ensures
        forall|k: int| 0 <= k < nonempty(list).len() ==> word_of(#[trigger] nonempty(list)[k], text),
    decreases list.len(),
{
    if list.len() > 0 {
        assert forall|k: int| 0 <= k < list.drop_last().len() implies stretch_of(
            #[trigger] list.drop_last()[k],
            text,
        ) by {
            assert(stretch_of(list[k], text));
        }
        lemma_nonempty_are_words(list.drop_last(), text);
        assert(stretch_of(list[list.len() - 1], text));
        let before = nonempty(list.drop_last());
        assert forall|k: int| 0 <= k < nonempty(list).len() implies word_of(
            #[trigger] nonempty(list)[k],
            text,
        ) by {
            if k < before.len() {
                assert(word_of(before[k], text));
            }
        }
    }
}

/// Whether the text is made of characters of `from` and of underscores, none of which stands at an
/// end or beside another.
spec fn well_joined(text: Seq<char>, from: Seq<char>) -> bool {
    forall|i: int|
        0 <= i < text.len() ==> {
            &&& #[trigger] text[i] != '_' ==> from.contains(text[i])
            &&& text[i] == '_' ==> 0 < i < text.len() - 1 && text[i - 1] != '_' && text[i + 1]
                != '_'
        }
}

proof fn lemma_joined_is_well_joined(words: Seq<Seq<char>>, from: Seq<char>)
    requires
        forall|k: int| 0 <= k < words.len() ==> word_of(#[trigger] words[k], from),
    ensures
        well_joined(joined(words), from),
        words.len() > 0 ==> joined(words).len() > 0 && joined(words).last() != '_',
    decreases words.len(),
{
    if words.len() == 1 {
        assert(word_of(words[0], from));
    } else if words.len() > 1 {
        let fewer = words.drop_last();
        assert forall|k: int| 0 <= k < fewer.len() implies word_of(#[trigger] fewer[k], from) by {
            assert(word_of(words[k], from));
        }
        lemma_joined_is_well_joined(fewer, from);
        assert(word_of(words[words.len() - 1], from));
        let head = joined(fewer);
        let word = words.last();
        let whole = joined(words);
        assert forall|i: int| 0 <= i < whole.len() implies {
            &&& #[trigger] whole[i] != '_' ==> from.contains(whole[i])
            &&& whole[i] == '_' ==> 0 < i < whole.len() - 1 && whole[i - 1] != '_' && whole[i + 1]
                != '_'
        } by {
            if i < head.len() {
                assert(whole[i] == head[i]);
                if head[i] == '_' {
                    assert(whole[i - 1] == head[i - 1]);
                    assert(whole[i + 1] == head[i + 1]);
                }
            } else if i == head.len() {
                assert(whole[i - 1] == head[i - 1]);
                assert(whole[i + 1] == word[0]);
            } else {
                assert(whole[i] == word[i - head.len() - 1]);
            }
        }
    }
}

/// A folder name is made of alphanumeric characters and underscores.  No underscore stands at its
/// start or its end, and no two stand side by side.
pub proof fn law_folder_name_is_well_formed(lower: Seq<char>, i: int)
    requires
        0 <= i < folder_name(lower).len(),
    ensures
        folder_name(lower)[i] != '_' ==> alphanumeric(folder_name(lower)[i]),
        folder_name(lower)[i] == '_' ==> 0 < i < folder_name(lower).len() - 1 && folder_name(
            lower,
        )[i - 1] != '_' && folder_name(lower)[i + 1] != '_',
{
    let text = spelled_out(lower);
    let gapped = with_gaps(text, alphanumerics(text));
    lemma_pieces_are_stretches(gapped);
    lemma_nonempty_are_words(pieces(gapped), gapped);
    lemma_joined_is_well_joined(nonempty(pieces(gapped)), gapped);
    let c = folder_name(lower)[i];
    if c != '_' {
        let at = choose|at: int| 0 <= at < gapped.len() && gapped[at] == c;
        assert(alphanumeric(text[at]));
    }
}

proof fn lemma_spelled_out_has_no_umlauts(text: Seq<char>, c: char)
    requires
        spelled_out(text).contains(c),
    ensures
        spelled(c) == seq![c],
    decreases text.len(),
{
    if text.len() > 0 {
        let at = choose|at: int| 0 <= at < spelled_out(text).len() && spelled_out(text)[at] == c;
        let shorter = spelled_out(text.drop_last());
        if at < shorter.len() {
            assert(shorter[at] == c);
            lemma_spelled_out_has_no_umlauts(text.drop_last(), c);
        } else {
            assert(spelled(text.last())[at - shorter.len()] == c);
        }
    }
}

proof fn lemma_spelled_out_of_plain(text: Seq<char>)
    requires
        forall|i: int| 0 <= i < text.len() ==> spelled(#[trigger] text[i]) == seq![text[i]],
    ensures
        spelled_out(text) == text,
    decreases text.len(),
{
    if text.len() > 0 {
        lemma_spelled_out_of_plain(text.drop_last());
        assert(text.drop_last() + seq![text.last()] =~= text);
    } else {
        assert(spelled_out(text) =~= text);
    }
}

/// The pieces of a text that is continued by an underscore and a stretch without underscores.
proof fn lemma_pieces_of_continued(text: Seq<char>, stretch: Seq<char>)
    requires
        forall|i: int| 0 <= i < stretch.len() ==> #[trigger] stretch[i] != '_',
    ensures
        pieces(text.push('_') + stretch) == pieces(text).push(stretch),
    decreases stretch.len(),
{
    let whole = text.push('_') + stretch;
    if stretch.len() == 0 {
        assert(whole =~= text.push('_'));
        assert(whole.drop_last() =~= text);
        assert(stretch =~= Seq::<char>::empty());
    } else {
        let shorter = stretch.drop_last();
        lemma_pieces_of_continued(text, shorter);
        assert(whole.drop_last() =~= text.push('_') + shorter);
        assert(whole.last() == stretch.last());
        let before = pieces(whole.drop_last());
        assert(before.drop_last() =~= pieces(text));
        assert(shorter.push(stretch.last()) =~= stretch);
    }
}

proof fn lemma_pieces_of_stretch(stretch: Seq<char>)
    requires
        forall|i: int| 0 <= i < stretch.len() ==> #[trigger] stretch[i] != '_',
    ensures
        pieces(stretch) == seq![stretch],
    decreases stretch.len(),
{
    if stretch.len() == 0 {
        assert(stretch =~= Seq::<char>::empty());
    } else {
        lemma_pieces_of_stretch(stretch.drop_last());
        assert(stretch.drop_last().push(stretch.last()) =~= stretch);
        assert(pieces(stretch) =~= seq![stretch]);
    }
}

proof fn lemma_words_of_joined(words: Seq<Seq<char>>, from: Seq<char>)
    requires
        forall|k: int| 0 <= k < words.len() ==> word_of(#[trigger] words[k], from),
    ensures
        nonempty(pieces(joined(words))) == words,
    decreases words.len(),
{
    reveal_with_fuel(nonempty, 3);
    if words.len() == 0 {
        assert(pieces(joined(words)).drop_last() =~= Seq::<Seq<char>>::empty());
        assert(words =~= Seq::<Seq<char>>::empty());
    } else if words.len() == 1 {
        assert(word_of(words[0], from));
        lemma_pieces_of_stretch(words[0]);
        assert(pieces(joined(words)).drop_last() =~= Seq::<Seq<char>>::empty());
        assert(nonempty(pieces(joined(words))) =~= words);
    } else {
        let fewer = words.drop_last();
        assert forall|k: int| 0 <= k < fewer.len() implies word_of(#[trigger] fewer[k], from) by {
            assert(word_of(words[k], from));
        }
        lemma_words_of_joined(fewer, from);
        assert(word_of(words[words.len() - 1], from));
        lemma_pieces_of_continued(joined(fewer), words.last());
        assert(pieces(joined(words)).drop_last() =~= pieces(joined(fewer)));
        assert(nonempty(pieces(joined(words))) =~= words);
    }
}

/// Naming a folder after a folder name changes nothing.
pub proof fn law_folder_name_is_settled(lower: Seq<char>)
    ensures
        folder_name(folder_name(lower)) == folder_name(lower),
{
    let text = spelled_out(lower);
    let gapped = with_gaps(text, alphanumerics(text));
    let words = nonempty(pieces(gapped));
    let name = joined(words);
    lemma_pieces_are_stretches(gapped);
    lemma_nonempty_are_words(pieces(gapped), gapped);
    lemma_joined_is_well_joined(words, gapped);
    assert forall|i: int| 0 <= i < name.len() implies spelled(#[trigger] name[i]) == seq![
        name[i],
    ] && (name[i] == '_' || alphanumeric(name[i])) by {
        if name[i] != '_' {
            let at = choose|at: int| 0 <= at < gapped.len() && gapped[at] == name[i];
            assert(text[at] == name[i]);
            lemma_spelled_out_has_no_umlauts(lower, name[i]);
        }
    }
    lemma_spelled_out_of_plain(name);
    assert(with_gaps(name, alphanumerics(name)) =~= name);
    lemma_words_of_joined(words, gapped);
}

/// The text with each sharp s written as a double s.
pub open spec fn with_double_s(text: Seq<char>) -> Seq<char>
    decreases text.len(),
{
    if text.len() == 0 {
        Seq::empty()
    } else {
        with_double_s(text.drop_last()) + if text.last() == 'ß' {
            seq!['s', 's']
        } else {
            seq![text.last()]
        }
    }
}

proof fn lemma_spelled_out_of_sum(text: Seq<char>, more: Seq<char>)
    ensures
        spelled_out(text + more) == spelled_out(text) + spelled_out(more),
    decreases more.len(),
{
    if more.len() == 0 {
        assert(text + more =~= text);
    } else {
        lemma_spelled_out_of_sum(text, more.drop_last());
        assert((text + more).drop_last() =~= text + more.drop_last());
        assert((text + more).last() == more.last());
    }
}

proof fn lemma_spelled_out_of_double_s(text: Seq<char>)
    ensures
        spelled_out(with_double_s(text)) == spelled_out(text),
    decreases text.len(),
{
    if text.len() > 0 {
        let c = text.last();
        let written = if c == 'ß' {
            seq!['s', 's']
        } else {
            seq![c]
        };
        lemma_spelled_out_of_double_s(text.drop_last());
        lemma_spelled_out_of_sum(with_double_s(text.drop_last()), written);
        if c == 'ß' {
            lemma_spelled_out_of_plain(written);
        } else {
            reveal_with_fuel(spelled_out, 2);
            assert(written.drop_last() =~= Seq::<char>::empty());
            assert(spelled_out(written) =~= spelled(c));
        }
    }
}

/// A sharp s and a double s give the same folder name.
pub proof fn law_sharp_s_is_double_s(lower: Seq<char>)
    ensures
        folder_name(with_double_s(lower)) == folder_name(lower),
{
    lemma_spelled_out_of_double_s(lower);
}

/// Two names have the same folder if their lower-case forms differ at most in how a sharp s is
/// written, as those of a name in capitals and in small letters may.
pub proof fn law_folder_follows_lower_case(name: Seq<char>, other: Seq<char>)
    requires
        with_double_s(lowercase(name)) == with_double_s(lowercase(other)),
    ensures
        folder_name(lowercase(name)) == folder_name(lowercase(other)),
{
    law_sharp_s_is_double_s(lowercase(name));
    law_sharp_s_is_double_s(lowercase(other));
}

/// Trimming a trimmed text changes nothing.
pub proof fn law_trimmed_is_settled(text: Seq<char>)
    ensures
        trimmed(trimmed(text)) == trimmed(text),
    decreases text.len(),
{
    if text.len() > 0 {
        if white_space(text.first()) {
            law_trimmed_is_settled(text.drop_first());
        } else if white_space(text.last()) {
            law_trimmed_is_settled(text.drop_last());
        }
    }
}

/// How each character is spelled, and that a text is spelled character by character.
pub proof fn law_text_is_spelled_by_character(text: Seq<char>, c: char, more: Seq<char>)
    ensures
        spelled_out(text.push(c) + more) == spelled_out(text) + (if c == 'ä' {
            seq!['a', 'e']
        } else if c == 'ö' {
            seq!['o', 'e']
        } else if c == 'ü' {
            seq!['u', 'e']
        } else if c == 'ß' {
            seq!['s', 's']
        } else {
            seq![c]
        }) + spelled_out(more),
        spelled_out(Seq::empty()) == Seq::<char>::empty(),
{
    lemma_spelled_out_of_sum(text.push(c), more);
    assert(text.push(c).drop_last() =~= text);
}

/// A text keeps its kept characters in their places, and has underscores in the others.
pub proof fn law_gaps_are_underscores(text: Seq<char>, kept: Seq<bool>, i: int)
    requires
        kept.len() == text.len(),
        0 <= i < text.len(),
    ensures
        with_gaps(text, kept).len() == text.len(),
        kept[i] ==> with_gaps(text, kept)[i] == text[i],
        !kept[i] ==> with_gaps(text, kept)[i] == '_',
        alphanumerics(text).len() == text.len(),
        alphanumerics(text)[i] == alphanumeric(text[i]),
{
}

/// What stands on the two sides of an underscore is put together by one underscore, unless a side
/// has no words.
spec fn put_together(left: Seq<char>, right: Seq<char>) -> Seq<char> {
    if left.len() == 0 {
        right
    } else if right.len() == 0 {
        left
    } else {
        left.push('_') + right
    }
}

proof fn lemma_nonempty_of_sum(list: Seq<Seq<char>>, more: Seq<Seq<char>>)
    ensures
        nonempty(list + more) == nonempty(list) + nonempty(more),
    decreases more.len(),
{
    if more.len() == 0 {
        assert(list + more =~= list);
        assert(nonempty(list) + nonempty(more) =~= nonempty(list));
    } else {
        lemma_nonempty_of_sum(list, more.drop_last());
        assert((list + more).drop_last() =~= list + more.drop_last());
        assert((list + more).last() == more.last());
        assert(nonempty(list + more) =~= nonempty(list) + nonempty(more));
    }
}

proof fn lemma_pieces_of_sum(text: Seq<char>, more: Seq<char>)
    ensures
        pieces(text.push('_') + more) == pieces(text) + pieces(more),
        pieces(more).len() > 0,
    decreases more.len(),
{
    let whole = text.push('_') + more;
    if more.len() == 0 {
        assert(whole =~= text.push('_'));
        assert(whole.drop_last() =~= text);
        assert(pieces(whole) =~= pieces(text) + pieces(more));
    } else {
        lemma_pieces_of_sum(text, more.drop_last());
        assert(whole.drop_last() =~= text.push('_') + more.drop_last());
        assert(whole.last() == more.last());
        let before = pieces(more.drop_last());
        let joint = pieces(text) + before;
        assert(joint.last() == before.last());
        assert(joint.drop_last() =~= pieces(text) + before.drop_last());
        assert(pieces(whole) =~= pieces(text) + pieces(more));
    }
}

/// No word is empty, so a join of words is empty only if there are none.
proof fn lemma_joined_of_sum(words: Seq<Seq<char>>, more: Seq<Seq<char>>)
    requires
        forall|k: int| 0 <= k < words.len() ==> (#[trigger] words[k]).len() > 0,
        forall|k: int| 0 <= k < more.len() ==> (#[trigger] more[k]).len() > 0,
    ensures
        joined(words + more) == put_together(joined(words), joined(more)),
        words.len() > 0 ==> joined(words).len() > 0,
        more.len() > 0 ==> joined(more).len() > 0,
    decreases words.len() + more.len(),
{
    if more.len() == 0 {
        assert(words + more =~= words);
        if words.len() > 1 {
            assert forall|k: int| 0 <= k < words.drop_last().len() implies (
            #[trigger] words.drop_last()[k]).len() > 0 by {
                assert(words[k].len() > 0);
            }
            lemma_joined_of_sum(words.drop_last(), more);
        } else if words.len() == 1 {
            assert(words[0].len() > 0);
        }
    } else {
        let fewer = more.drop_last();
        let all = words + more;
        assert forall|k: int| 0 <= k < fewer.len() implies (#[trigger] fewer[k]).len() > 0 by {
            assert(more[k].len() > 0);
        }
        lemma_joined_of_sum(words, fewer);
        assert(all.drop_last() =~= words + fewer);
        assert(all.last() == more.last());
        assert(more[more.len() - 1].len() > 0);
        if words.len() == 0 {
            assert(all =~= more);
        } else if fewer.len() == 0 {
            assert(words + fewer =~= words);
            assert(more[0] == more.last());
            assert(joined(all) =~= put_together(joined(words), joined(more)));
        } else {
            assert(joined(all) =~= put_together(joined(words), joined(more)));
        }
    }
}

proof fn lemma_underscored_of_sum(text: Seq<char>, more: Seq<char>)
    ensures
        underscored(text.push('_') + more) == put_together(underscored(text), underscored(more)),
{
    lemma_pieces_of_sum(text, more);
    lemma_nonempty_of_sum(pieces(text), pieces(more));
    lemma_pieces_are_stretches(text);
    lemma_pieces_are_stretches(more);
    lemma_nonempty_are_words(pieces(text), text);
    lemma_nonempty_are_words(pieces(more), more);
    let words = nonempty(pieces(text));
    let others = nonempty(pieces(more));
    assert forall|k: int| 0 <= k < words.len() implies (#[trigger] words[k]).len() > 0 by {
        assert(word_of(words[k], text));
    }
    assert forall|k: int| 0 <= k < others.len() implies (#[trigger] others[k]).len() > 0 by {
        assert(word_of(others[k], more));
    }
    lemma_joined_of_sum(words, others);
}

/// Joining the words of a text: an underscore stands between what its two sides give, if both give
/// something, and a text without underscores stays as it is.
pub proof fn law_underscores_separate_words(text: Seq<char>, more: Seq<char>)
    ensures
        underscored(text.push('_') + more) == (if underscored(text).len() == 0 {
            underscored(more)
        } else if underscored(more).len() == 0 {
            underscored(text)
        } else {
            underscored(text) + seq!['_'] + underscored(more)
        }),
        !text.contains('_') ==> underscored(text) == text,
{
    lemma_underscored_of_sum(text, more);
    assert(underscored(text).push('_') + underscored(more) =~= underscored(text) + seq!['_']
        + underscored(more));
    if !text.contains('_') {
        lemma_underscored_of_stretch(text);
    }
}

proof fn lemma_underscored_of_stretch(text: Seq<char>)
    requires
        !text.contains('_'),
    ensures
        underscored(text) == text,
{
    reveal_with_fuel(nonempty, 2);
    assert forall|i: int| 0 <= i < text.len() implies #[trigger] text[i] != '_' by {
        assert(text.contains(text[i]));
    }
    lemma_pieces_of_stretch(text);
    assert(seq![text].drop_last() =~= Seq::<Seq<char>>::empty());
    if text.len() > 0 {
        assert(nonempty(seq![text]) =~= seq![text]);
    } else {
        assert(nonempty(seq![text]) =~= Seq::<Seq<char>>::empty());
        assert(text =~= Seq::<char>::empty());
    }
}

/// Whatever is neither a letter nor a digit separates words in a folder name: the name has what the
/// two sides give, with one underscore between if both give something.
pub proof fn law_separators_become_one_underscore(left: Seq<char>, c: char, right: Seq<char>)
    requires
        c == '_' || !alphanumeric(c),
        c != 'ä' && c != 'ö' && c != 'ü' && c != 'ß',
    ensures
        folder_name(left.push(c) + right) == (if folder_name(left).len() == 0 {
            folder_name(right)
        } else if folder_name(right).len() == 0 {
            folder_name(left)
        } else {
            folder_name(left) + seq!['_'] + folder_name(right)
        }),
{
    let a = spelled_out(left);
    let b = spelled_out(right);
    let text = spelled_out(left.push(c) + right);
    law_text_is_spelled_by_character(left, c, right);
    assert(text =~= a + seq![c] + b);
    let gapped_a = with_gaps(a, alphanumerics(a));
    let gapped_b = with_gaps(b, alphanumerics(b));
    assert(with_gaps(text, alphanumerics(text)) =~= gapped_a.push('_') + gapped_b);
    law_underscores_separate_words(gapped_a, gapped_b);
}

/// A text of letters and digits alone gives itself, spelled out.
pub proof fn law_word_is_its_own_folder_name(word: Seq<char>)
    requires
        forall|i: int|
            0 <= i < spelled_out(word).len() ==> alphanumeric(#[trigger] spelled_out(word)[i])
                && spelled_out(word)[i] != '_',
    ensures
        folder_name(word) == spelled_out(word),
{
    let text = spelled_out(word);
    assert(with_gaps(text, alphanumerics(text)) =~= text);
    lemma_underscored_of_stretch(text);
}

/// The codes of white space.
pub proof fn law_codes_of_white_space(c: char)
    ensures
        white_space(c) <==> set![
            9int, 10int, 11int, 12int, 13int, 32int, 133int, 160int, 5760int, 8192int, 8193int,
            8194int, 8195int, 8196int, 8197int, 8198int, 8199int, 8200int, 8201int, 8202int, 8232int,
            8233int, 8239int, 8287int, 12288int,
        ].contains(c as int),
{
}

/// The text from `from` up to `to` is left after trimming if only white space stands around it and
/// none at its own ends.
pub proof fn law_trimmed_is_what_white_space_surrounds(text: Seq<char>, from: int, to: int)
    requires
        0 <= from <= to <= text.len(),
        forall|i: int| 0 <= i < from ==> white_space(#[trigger] text[i]),
        forall|i: int| to <= i < text.len() ==> white_space(#[trigger] text[i]),
        from < to ==> !white_space(text[from]) && !white_space(text[to - 1]),
    ensures
        trimmed(text) == text.subrange(from, to),
    decreases text.len(),
{
    if text.len() == 0 {
        assert(text.subrange(from, to) =~= text);
    } else if white_space(text.first()) {
        let rest = text.drop_first();
        if from == 0 {
            assert(from == to);
            assert forall|i: int| 0 <= i < rest.len() implies white_space(#[trigger] rest[i]) by {
                assert(white_space(text[i + 1]));
            }
            law_trimmed_is_what_white_space_surrounds(rest, 0, 0);
            assert(rest.subrange(0, 0) =~= text.subrange(from, to));
        } else {
            assert forall|i: int| 0 <= i < from - 1 implies white_space(#[trigger] rest[i]) by {
                assert(white_space(text[i + 1]));
            }
            assert forall|i: int| to - 1 <= i < rest.len() implies white_space(
                #[trigger] rest[i],
            ) by {
                assert(white_space(text[i + 1]));
            }
            law_trimmed_is_what_white_space_surrounds(rest, from - 1, to - 1);
            assert(rest.subrange(from - 1, to - 1) =~= text.subrange(from, to));
        }
    } else if white_space(text.last()) {
        let rest = text.drop_last();
        assert(from == 0 && to < text.len() && to > 0);
        assert forall|i: int| to <= i < rest.len() implies white_space(#[trigger] rest[i]) by {
            assert(white_space(text[i]));
        }
        law_trimmed_is_what_white_space_surrounds(rest, from, to);
        assert(rest.subrange(from, to) =~= text.subrange(from, to));
    } else {
        assert(from == 0 && to == text.len());
        assert(text.subrange(from, to) =~= text);
    }
}

/// A field counts as blank if it is missing or holds white space alone; any other counts as what
/// stands between its first and its last character that is none.
pub proof fn law_nonblank_field_is_read_whole(text: Seq<char>, from: int, to: int)
    requires
        0 <= from <= to <= text.len(),
        forall|i: int| 0 <= i < from ==> white_space(#[trigger] text[i]),
        forall|i: int| to <= i < text.len() ==> white_space(#[trigger] text[i]),
        from < to ==> !white_space(text[from]) && !white_space(text[to - 1]),
    ensures
        nonblank(None) is None,
        from == to ==> nonblank(Some(text)) is None,
        from < to ==> nonblank(Some(text)) == Some(text.subrange(from, to)),
{
    law_trimmed_is_what_white_space_surrounds(text, from, to);
}

/// White space around a field makes no difference.
pub proof fn law_white_space_around_a_field_is_ignored(text: Seq<char>, c: char)
    requires
        white_space(c),
    ensures
        nonblank(Some(text.push(c))) == nonblank(Some(text)),
        nonblank(Some(seq![c] + text)) == nonblank(Some(text)),
{
    let (from, to) = lemma_white_space_surrounds(text);
    law_nonblank_field_is_read_whole(text, from, to);
    let longer = text.push(c);
    assert forall|i: int| 0 <= i < from implies white_space(#[trigger] longer[i]) by {
        assert(white_space(text[i]));
    }
    assert forall|i: int| to <= i < longer.len() implies white_space(#[trigger] longer[i]) by {
        if i < text.len() {
            assert(white_space(text[i]));
        }
    }
    law_nonblank_field_is_read_whole(longer, from, to);
    assert(longer.subrange(from, to) =~= text.subrange(from, to));
    let shifted = seq![c] + text;
    assert forall|i: int| 0 <= i < from + 1 implies white_space(#[trigger] shifted[i]) by {
        if i > 0 {
            assert(white_space(text[i - 1]));
        }
    }
    assert forall|i: int| to + 1 <= i < shifted.len() implies white_space(
        #[trigger] shifted[i],
    ) by {
        assert(white_space(text[i - 1]));
    }
    law_nonblank_field_is_read_whole(shifted, from + 1, to + 1);
    assert(shifted.subrange(from + 1, to + 1) =~= text.subrange(from, to));
}

/// Where what is left after trimming stands.
proof fn lemma_white_space_surrounds(text: Seq<char>) -> (at: (int, int))
    ensures
        0 <= at.0 <= at.1 <= text.len(),
        forall|i: int| 0 <= i < at.0 ==> white_space(#[trigger] text[i]),
        forall|i: int| at.1 <= i < text.len() ==> white_space(#[trigger] text[i]),
        at.0 < at.1 ==> !white_space(text[at.0]) && !white_space(text[at.1 - 1]),
    decreases text.len(),
{
    if text.len() == 0 {
        (0, 0)
    } else if white_space(text.first()) {
        let rest = text.drop_first();
        let at = lemma_white_space_surrounds(rest);
        assert forall|i: int| 0 <= i < at.0 + 1 implies white_space(#[trigger] text[i]) by {
            if i > 0 {
                assert(white_space(rest[i - 1]));
            }
        }
        assert forall|i: int| at.1 + 1 <= i < text.len() implies white_space(
            #[trigger] text[i],
        ) by {
            assert(white_space(rest[i - 1]));
        }
        (at.0 + 1, at.1 + 1)
    } else if white_space(text.last()) {
        let rest = text.drop_last();
        let at = lemma_white_space_surrounds(rest);
        assert forall|i: int| at.1 <= i < text.len() implies white_space(#[trigger] text[i]) by {
            if i < rest.len() {
                assert(white_space(rest[i]));
            }
        }
        assert forall|i: int| 0 <= i < at.0 implies white_space(#[trigger] text[i]) by {
            assert(white_space(rest[i]));
        }
        at
    } else {
        (0, text.len() as int)
    }
}

/// An optional text is there in contracts whenever it is there, and the same.
pub proof fn law_optional_text_stands_for_itself(field: Option<String>)
    ensures
        field is None <==> text_of(field) is None,
        field matches Some(text) ==> text_of(field) == Some(text@),
{
}

} // verus!
