//! The user's settings and the text form in which the excluded phrases are
//! edited.

use vstd::prelude::*;
use crate::text::{
    free_of, join, lemma_nonempty_trimmed_items, lemma_split_char_extend, lemma_split_char_pieces_free,
    lemma_split_char_sep, lemma_trim_after_blank, nonempty_trimmed, split_char,
    split_trimmed_nonempty, trim, views,
};

verus! {

/// The user's settings.
#[derive(Clone)]
pub struct Config {
    pub save_path: String,
    pub add_spaces: bool,
    pub remove_non_rp: bool,
    pub use_base_list: bool,
    pub excluded_words: Vec<String>,
}

impl Default for Config {
    fn default() -> (c: Self)
        ensures
            c.save_path@ == "C:/"@,
            !c.add_spaces,
            !c.remove_non_rp,
            c.use_base_list,
            views(c.excluded_words@) == seq!["[Чат фракции]"@],
    {
        let words = vec!["[Чат фракции]".to_owned()];
        proof {
            assert(views(words@) =~= seq!["[Чат фракции]"@]);
        }
        Config {
            save_path: "C:/".to_owned(),
            add_spaces: false,
            remove_non_rp: false,
            use_base_list: true,
            excluded_words: words,
        }
    }
}

/// `, `, between the phrases in their text form.
pub open spec fn tag_separator() -> Seq<char> {
    seq![',', ' ']
}

/// The excluded phrases typed in the settings: the pieces between commas,
/// trimmed, without the empty ones.
pub fn parse_excluded_tags(tags: &str) -> (r: Vec<String>)
    ensures
        views(r@) == nonempty_trimmed(split_char(tags@, ',')),
{
    split_trimmed_nonempty(tags, ',')
}

/// The excluded phrases as the settings show them: joined with `, `.
pub fn format_excluded_tags(words: &Vec<String>) -> (r: String)
    ensures
        r@ == join(views(words@), tag_separator()),
{
    let sep = vec![',', ' '];
    proof {
        assert(sep@ =~= tag_separator());
    }
    let r = crate::text::join_prefix(words, words.len(), &sep);
    proof {
        assert(views(words@).take(words.len() as int) =~= views(words@));
    }
    r
}


/// A phrase that its text form keeps as it is: not empty, trimmed, and
/// without a comma.
pub open spec fn keeps_form(w: Seq<char>) -> bool {
    w.len() > 0 && trim(w) == w && free_of(w, ',')
}

/// The comma-separated pieces of the text form of at least one phrase: the
/// first phrase, then each further one after a blank.
proof fn lemma_split_formatted(words: Seq<Seq<char>>)
    requires
        words.len() >= 2,
        forall|i: int| 0 <= i < words.len() ==> keeps_form(#[trigger] words[i]),
    ensures
        split_char(join(words, tag_separator()), ',') == split_char(
            join(words.drop_last(), tag_separator()),
            ',',
        ).push(seq![' '] + words.last()),
{
    let a = join(words.drop_last(), tag_separator());
    let w = words.last();
    assert(keeps_form(words[words.len() - 1]));
    let tail = seq![' '] + w;
    assert forall|j: int| 0 <= j < tail.len() implies tail[j] != ',' by {
        if j > 0 {
            assert(tail[j] == w[j - 1]);
        }
    }
    assert(join(words, tag_separator()) =~= a.push(',') + tail);
    lemma_split_char_sep(a, ',');
    lemma_split_char_extend(a.push(','), tail, ',');
    let pa = split_char(a, ',');
    let pb = split_char(a.push(','), ',');
    assert(pb.last() + tail =~= tail);
    assert(pb.update(pb.len() - 1, tail) =~= pa.push(tail));
}

/// Reading back the text form of phrases that keep their form gives the
/// same phrases.
pub proof fn lemma_tags_round_trip(words: Seq<Seq<char>>)
    requires
        forall|i: int| 0 <= i < words.len() ==> keeps_form(#[trigger] words[i]),
    ensures
        nonempty_trimmed(split_char(join(words, tag_separator()), ',')) == words,
    decreases words.len(),
{
    if words.len() == 0 {
        let e = Seq::<char>::empty();
        assert(split_char(e, ',') == seq![e]);
        assert(seq![e].drop_last() =~= Seq::<Seq<char>>::empty());
        assert(trim(e) =~= e);
        assert(seq![e].last() == e);
        assert(nonempty_trimmed(seq![e].drop_last()) =~= Seq::<Seq<char>>::empty());
        assert(nonempty_trimmed(seq![e]) =~= Seq::<Seq<char>>::empty());
        assert(join(words, tag_separator()) =~= e);
        assert(words =~= Seq::<Seq<char>>::empty());
    } else if words.len() == 1 {
        let w = words[0];
        assert(keeps_form(words[0]));
        let e = Seq::<char>::empty();
        lemma_split_char_extend(e, w, ',');
        assert(e + w =~= w);
        let one = split_char(e, ',').update(0, split_char(e, ',').last() + w);
        assert(one =~= seq![w]);
        assert(seq![w].drop_last() =~= Seq::<Seq<char>>::empty());
        assert(seq![w].last() == w);
        assert(Seq::<Seq<char>>::empty().push(w) =~= words);
        assert(join(words, tag_separator()) == w);
        assert(trim(w) == w);
        assert(nonempty_trimmed(seq![w]) == nonempty_trimmed(seq![w].drop_last()).push(w));
        assert(nonempty_trimmed(seq![w]) =~= words);
    } else {
        let init = words.drop_last();
        assert forall|i: int| 0 <= i < init.len() implies keeps_form(#[trigger] init[i]) by {
            assert(init[i] == words[i]);
        }
        lemma_tags_round_trip(init);
        lemma_split_formatted(words);
        let parts = split_char(join(init, tag_separator()), ',');
        let tail = seq![' '] + words.last();
        assert(parts.push(tail).drop_last() =~= parts);
        assert(parts.push(tail).last() == tail);
        lemma_trim_after_blank(words.last());
        assert(keeps_form(words[words.len() - 1]));
        assert(init.push(words.last()) =~= words);
        assert(trim(tail) == words.last());
        assert(nonempty_trimmed(parts.push(tail)) == nonempty_trimmed(parts).push(words.last()));
    }
}

/// Phrases read from the settings keep their form.
pub proof fn lemma_parsed_tags_keep_form(tags: Seq<char>)
    ensures
        forall|i: int|
            0 <= i < nonempty_trimmed(split_char(tags, ',')).len() ==> keeps_form(
                #[trigger] nonempty_trimmed(split_char(tags, ','))[i],
            ),
{
    lemma_split_char_pieces_free(tags, ',');
    lemma_nonempty_trimmed_items(split_char(tags, ','), ',');
}

/// Showing the phrases read from the settings and reading them back gives
/// the same phrases.
pub proof fn lemma_tags_stable(tags: Seq<char>)
    ensures
        nonempty_trimmed(
            split_char(join(nonempty_trimmed(split_char(tags, ',')), tag_separator()), ','),
        ) == nonempty_trimmed(split_char(tags, ',')),
{
    lemma_parsed_tags_keep_form(tags);
    lemma_tags_round_trip(nonempty_trimmed(split_char(tags, ',')));
}

} // verus!
