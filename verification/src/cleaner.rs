//! The cleaning of a chat log: which lines carry a message, what the message
//! is, which messages are dropped, and how the kept ones are laid out.

use vstd::prelude::*;
use crate::text::{
    chars_of, contains, matches_at, contains_exec, find, find_exec, lemma_find, remove_all, remove_all_exec,
    slice_of, starts_with, ends_with, trim, trim_bounds, trimmed, utf8_longer_than_two, views,
    split_char, lines_of, strip_cr, join, split_trimmed_nonempty, lemma_nonempty_trimmed_lines, is_prefix,
    lemma_join_take_is_prefix, lemma_trim_idempotent, free_of, lemma_nonempty_trimmed_items,
    lemma_split_char_pieces_free, lemma_trim_free, lemma_remove_all_free, lemma_lines_free,
    lemma_split_join, lemma_utf8_at_least_one_byte_each, join_prefix, nonempty_trimmed, string_of, starts_with_exec, ends_with_exec,
};

verus! {

/// The marker of a chat line.
pub open spec fn chat_tag() -> Seq<char> {
    seq!['[', 'C', 'H', 'A', 'T', ']']
}

/// The marker of a private message.
pub open spec fn pm_tag() -> Seq<char> {
    seq!['[', 'P', 'M', ']']
}

/// Where the message of `line` starts: just after the later of the first
/// chat marker and the first private-message marker; `None` when the line
/// has neither.
pub open spec fn message_start(line: Seq<char>) -> Option<int> {
    match (find(line, chat_tag()), find(line, pm_tag())) {
        (Some(c), Some(p)) => Some(if c > p { c + 6 } else { p + 4 }),
        (Some(c), None) => Some(c + 6),
        (None, Some(p)) => Some(p + 4),
        (None, None) => None,
    }
}

/// The text after the marker, trimmed, without one leading `:` (and the
/// white space after it).
pub open spec fn raw_message(line: Seq<char>, start: int) -> Seq<char> {
    let raw = trim(line.skip(start));
    if raw.len() > 0 && raw[0] == ':' {
        trim(raw.drop_first())
    } else {
        raw
    }
}

/// The message that `line` carries: the raw message with every marker taken
/// out, trimmed again; `None` for a line without a marker, with nothing after
/// it, or whose message comes out empty.
pub open spec fn message_of(line: Seq<char>) -> Option<Seq<char>> {
    match message_start(line) {
        None => None,
        Some(start) => if start >= line.len() {
            None
        } else {
            let raw = raw_message(line, start);
            if raw.len() == 0 {
                None
            } else {
                let msg = trim(remove_all(remove_all(raw, chat_tag()), pm_tag()));
                if msg.len() == 0 {
                    None
                } else {
                    Some(msg)
                }
            }
        },
    }
}

/// An excluded phrase counts once trimmed, and only when its UTF-8 encoding
/// is longer than two bytes.
pub open spec fn phrase_counts(phrase: Seq<char>) -> bool {
    vstd::utf8::encode_utf8(trim(phrase)).len() > 2
}

/// `msg` holds one of the excluded phrases that count.
pub open spec fn is_excluded(msg: Seq<char>, excluded: Seq<Seq<char>>) -> bool {
    exists|k: int|
        0 <= k < excluded.len() && phrase_counts(excluded[k]) && contains(
            msg,
            trim(#[trigger] excluded[k]),
        )
}

/// `msg` is out of character: it opens with `((` and closes with `))`.
pub open spec fn is_out_of_character(msg: Seq<char>) -> bool {
    starts_with(msg, seq!['(', '(']) && ends_with(msg, seq![')', ')'])
}

/// The message that is kept from `line`, if any.
pub open spec fn kept_message(
    line: Seq<char>,
    excluded: Seq<Seq<char>>,
    remove_non_rp: bool,
) -> Option<Seq<char>> {
    match message_of(line) {
        None => None,
        Some(msg) => if is_excluded(msg, excluded) || (remove_non_rp && is_out_of_character(
            msg,
        )) {
            None
        } else {
            Some(msg)
        },
    }
}

/// What one line adds to the output: its kept message, followed by an empty
/// line when spacing is asked for.
pub open spec fn emitted(
    line: Seq<char>,
    excluded: Seq<Seq<char>>,
    add_spaces: bool,
    remove_non_rp: bool,
) -> Seq<Seq<char>> {
    match kept_message(line, excluded, remove_non_rp) {
        None => Seq::<Seq<char>>::empty(),
        Some(msg) => if add_spaces {
            seq![msg, Seq::<char>::empty()]
        } else {
            seq![msg]
        },
    }
}

/// The output lines for `lines`, in order.
pub open spec fn cleaned_lines(
    lines: Seq<Seq<char>>,
    excluded: Seq<Seq<char>>,
    add_spaces: bool,
    remove_non_rp: bool,
) -> Seq<Seq<char>>
    decreases lines.len(),
{
    if lines.len() == 0 {
        Seq::<Seq<char>>::empty()
    } else {
        cleaned_lines(lines.drop_last(), excluded, add_spaces, remove_non_rp) + emitted(
            lines.last(),
            excluded,
            add_spaces,
            remove_non_rp,
        )
    }
}

/// How many of `lines` keep a message.
pub open spec fn kept_count(
    lines: Seq<Seq<char>>,
    excluded: Seq<Seq<char>>,
    remove_non_rp: bool,
) -> nat
    decreases lines.len(),
{
    if lines.len() == 0 {
        0
    } else {
        kept_count(lines.drop_last(), excluded, remove_non_rp) + if kept_message(
            lines.last(),
            excluded,
            remove_non_rp,
        ) is Some {
            1nat
        } else {
            0nat
        }
    }
}

fn chat_tag_chars() -> (v: Vec<char>)
    ensures
        v@ == chat_tag(),
{
    let v = vec!['[', 'C', 'H', 'A', 'T', ']'];
    proof {
        assert(v@ =~= chat_tag());
    }
    v
}

fn pm_tag_chars() -> (v: Vec<char>)
    ensures
        v@ == pm_tag(),
{
    let v = vec!['[', 'P', 'M', ']'];
    proof {
        assert(v@ =~= pm_tag());
    }
    v
}

/// The excluded phrases prepared once for a whole log: each trimmed, with
/// whether it counts.
struct Phrases {
    trimmed: Vec<Vec<char>>,
    counts: Vec<bool>,
}

impl Phrases {
    spec fn prepared_from(&self, excluded: Seq<Seq<char>>) -> bool {
        &&& self.trimmed.len() == excluded.len()
        &&& self.counts.len() == excluded.len()
        &&& forall|k: int|
            0 <= k < excluded.len() ==> #[trigger] self.trimmed@[k]@ == trim(excluded[k])
                && self.counts@[k] == phrase_counts(excluded[k])
    }
}

fn prepare_phrases(excluded: &Vec<String>) -> (p: Phrases)
    ensures
        p.prepared_from(views(excluded@)),
{
    let mut words: Vec<Vec<char>> = Vec::new();
    let mut counts: Vec<bool> = Vec::new();
    let mut i: usize = 0;
    while i < excluded.len()
        invariant
            i <= excluded.len(),
            words.len() == i,
            counts.len() == i,
            forall|k: int|
                0 <= k < i ==> #[trigger] words@[k]@ == trim(views(excluded@)[k])
                    && counts@[k] == phrase_counts(views(excluded@)[k]),
        decreases excluded.len() - i,
    {
        let w = chars_of(excluded[i].as_str());
        let t = trimmed(&w, 0, w.len());
        proof {
            assert(w@.subrange(0, w@.len() as int) =~= w@);
        }
        let long = utf8_longer_than_two(&t);
        words.push(t);
        counts.push(long);
        i += 1;
    }
    assert(views(excluded@).len() == excluded.len());
    Phrases { trimmed: words, counts }
}

/// Whether `msg` holds one of the prepared phrases that count.
fn holds_excluded(msg: &Vec<char>, phrases: &Phrases, excluded: Ghost<Seq<Seq<char>>>) -> (r:
    bool)
    requires
        phrases.prepared_from(excluded@),
    ensures
        r == is_excluded(msg@, excluded@),
{
    let mut k: usize = 0;
    while k < phrases.trimmed.len()
        invariant
            phrases.prepared_from(excluded@),
            k <= phrases.trimmed.len(),
            forall|j: int|
                0 <= j < k ==> !(phrase_counts(excluded@[j]) && contains(
                    msg@,
                    trim(#[trigger] excluded@[j]),
                )),
        decreases phrases.trimmed.len() - k,
    {
        if phrases.counts[k] && contains_exec(msg, &phrases.trimmed[k]) {
            proof {
                assert(phrases.trimmed@[k as int]@ == trim(excluded@[k as int]));
            }
            return true;
        }
        proof {
            assert(phrases.trimmed@[k as int]@ == trim(excluded@[k as int]));
        }
        k += 1;
    }
    false
}

/// The message of `line`, if it has one.
fn message_of_exec(line: &Vec<char>) -> (r: Option<Vec<char>>)
    ensures
        r matches Some(m) ==> message_of(line@) == Some(m@),
        r is None ==> message_of(line@) is None,
{
    let chat = chat_tag_chars();
    let pm = pm_tag_chars();
    let c = find_exec(line, &chat);
    let p = find_exec(line, &pm);
    proof {
        lemma_find(line@, chat@);
        lemma_find(line@, pm@);
        assert(chat@.len() == 6);
        assert(pm@.len() == 4);
        if c is Some {
            assert(matches_at(line@, chat@, c->0 as int));
            assert(c->0 + 6 <= line.len());
        }
        if p is Some {
            assert(matches_at(line@, pm@, p->0 as int));
            assert(p->0 + 4 <= line.len());
        }
    }
    let start: usize = if let Some(ci) = c {
        if let Some(pi) = p {
            if ci > pi {
                ci + 6
            } else {
                pi + 4
            }
        } else {
            ci + 6
        }
    } else if let Some(pi) = p {
        pi + 4
    } else {
        return None;
    };
    if start >= line.len() {
        return None;
    }
    let (a, b) = trim_bounds(line, start, line.len());
    proof {
        assert(line@.subrange(start as int, line.len() as int) =~= line@.skip(start as int));
    }
    let (a, b) = if a < b && line[a] == ':' {
        let (a2, b2) = trim_bounds(line, a + 1, b);
        proof {
            assert(line@.subrange(a as int, b as int).drop_first() =~= line@.subrange(
                a + 1,
                b as int,
            ));
        }
        (a2, b2)
    } else {
        (a, b)
    };
    if a == b {
        return None;
    }
    let raw = slice_of(line, a, b);
    let without_chat = remove_all_exec(&raw, &chat);
    let without_both = remove_all_exec(&without_chat, &pm);
    let msg = trimmed(&without_both, 0, without_both.len());
    proof {
        assert(without_both@.subrange(0, without_both@.len() as int) =~= without_both@);
    }
    if msg.len() == 0 {
        return None;
    }
    Some(msg)
}


/// The message that `line` keeps, if any.
fn kept_message_exec(
    line: &Vec<char>,
    phrases: &Phrases,
    excluded: Ghost<Seq<Seq<char>>>,
    remove_non_rp: bool,
) -> (r: Option<Vec<char>>)
    requires
        phrases.prepared_from(excluded@),
    ensures
        r matches Some(m) ==> kept_message(line@, excluded@, remove_non_rp) == Some(m@),
        r is None ==> kept_message(line@, excluded@, remove_non_rp) is None,
{
    match message_of_exec(line) {
        None => None,
        Some(msg) => {
            if holds_excluded(&msg, phrases, excluded) {
                return None;
            }
            if remove_non_rp {
                let open = vec!['(', '('];
                let close = vec![')', ')'];
                proof {
                    assert(open@ =~= seq!['(', '(']);
                    assert(close@ =~= seq![')', ')']);
                }
                if starts_with_exec(&msg, &open) && ends_with_exec(&msg, &close) {
                    return None;
                }
            }
            Some(msg)
        },
    }
}

/// Appends what `line` gives to the output and counts its message.
fn emit_line(
    line: &Vec<char>,
    phrases: &Phrases,
    excluded: Ghost<Seq<Seq<char>>>,
    add_spaces: bool,
    remove_non_rp: bool,
    out: &mut Vec<String>,
    count: &mut usize,
)
    requires
        phrases.prepared_from(excluded@),
        *old(count) <= old(out).len(),
    ensures
        views(final(out)@) == views(old(out)@) + emitted(
            line@,
            excluded@,
            add_spaces,
            remove_non_rp,
        ),
        *final(count) == *old(count) + if kept_message(line@, excluded@, remove_non_rp) is Some {
            1int
        } else {
            0int
        },
        *final(count) <= final(out).len(),
{
    let ghost before = out@;
    match kept_message_exec(line, phrases, excluded, remove_non_rp) {
        None => {
            proof {
                assert(views(out@) =~= views(before) + Seq::<Seq<char>>::empty());
            }
        },
        Some(msg) => {
            out.push(string_of(msg.as_slice()));
            assert(*count < out.len());
            *count = *count + 1;
            if add_spaces {
                out.push(String::new());
                proof {
                    assert(views(out@) =~= views(before) + seq![msg@, Seq::<char>::empty()]);
                }
            } else {
                proof {
                    assert(views(out@) =~= views(before) + seq![msg@]);
                }
            }
        },
    }
}

/// `s` without one carriage return at its end.
fn strip_cr_exec(s: &Vec<char>) -> (r: Vec<char>)
    ensures
        r@ == strip_cr(s@),
{
    if s.len() > 0 && s[s.len() - 1] == '\r' {
        let r = slice_of(s, 0, s.len() - 1);
        proof {
            assert(r@ =~= s@.drop_last());
        }
        r
    } else {
        slice_of(s, 0, s.len())
    }
}

/// The cleaned lines of a chat log and the number of messages kept.
///
/// Each line of `content` that carries a chat marker (`[CHAT]`) or a
/// private-message marker (`[PM]`) gives the message after the later of the
/// two, trimmed and without a leading `:`, with the markers taken out of it.
/// A message is dropped when it is empty, when it holds an excluded phrase
/// (trimmed, longer than two bytes), or, with `remove_non_rp`, when it is
/// wrapped in `((` and `))`. With `add_spaces` an empty line follows each
/// kept message.
pub fn clean_log(
    content: &str,
    excluded_words: &Vec<String>,
    add_spaces: bool,
    remove_non_rp: bool,
) -> (r: (Vec<String>, usize))
    ensures
        views(r.0@) == cleaned_lines(
            lines_of(content@),
            views(excluded_words@),
            add_spaces,
            remove_non_rp,
        ),
        r.1 == kept_count(lines_of(content@), views(excluded_words@), remove_non_rp),
{
    broadcast use vstd::string::axiom_spec_iter;

    let phrases = prepare_phrases(excluded_words);
    let ghost ex = views(excluded_words@);
    let mut out: Vec<String> = Vec::new();
    let mut count: usize = 0;
    let mut cur: Vec<char> = Vec::new();
    let ghost mut done: Seq<Seq<char>> = Seq::empty();
    proof {
        assert(content@.take(0) =~= Seq::<char>::empty());
        assert(views(out@) =~= Seq::<Seq<char>>::empty());
    }
    for c in it: content.chars()
        invariant
            it.seq() == content@,
            0 <= it.index() <= content@.len(),
            phrases.prepared_from(ex),
            ex == views(excluded_words@),
            split_char(content@.take(it.index()), '\n').len() >= 1,
            cur@ == split_char(content@.take(it.index()), '\n').last(),
            done == split_char(content@.take(it.index()), '\n').take(
                split_char(content@.take(it.index()), '\n').len() - 1,
            ).map_values(|p: Seq<char>| strip_cr(p)),
            views(out@) == cleaned_lines(done, ex, add_spaces, remove_non_rp),
            count == kept_count(done, ex, remove_non_rp),
            count <= out.len(),
    {
        let ghost k = it.index();
        let ghost parts = split_char(content@.take(k), '\n');
        proof {
            assert(content@.take(k + 1).drop_last() =~= content@.take(k));
            assert(content@.take(k + 1).last() == c);
        }
        if c == '\n' {
            let line = strip_cr_exec(&cur);
            emit_line(&line, &phrases, Ghost(ex), add_spaces, remove_non_rp, &mut out, &mut count);
            proof {
                let next = split_char(content@.take(k + 1), '\n');
                assert(next == parts.push(Seq::<char>::empty()));
                let new_done = done.push(line@);
                assert(next.take(next.len() - 1).map_values(|p: Seq<char>| strip_cr(p)) =~= new_done);
                assert(new_done.drop_last() =~= done);
                done = new_done;
            }
            cur = Vec::new();
            proof {
                assert(cur@ =~= Seq::<char>::empty());
            }
        } else {
            cur.push(c);
            proof {
                let next = split_char(content@.take(k + 1), '\n');
                assert(next == parts.update(parts.len() - 1, parts.last().push(c)));
                assert(next.take(next.len() - 1) =~= parts.take(parts.len() - 1));
            }
        }
    }
    proof {
        assert(content@.take(content@.len() as int) =~= content@);
    }
    if cur.len() > 0 {
        emit_line(&cur, &phrases, Ghost(ex), add_spaces, remove_non_rp, &mut out, &mut count);
        proof {
            assert(done.push(cur@).drop_last() =~= done);
        }
    }
    (out, count)
}


/// How many output lines the preview shows at most.
pub const PREVIEW_LINES: usize = 75;

/// The number of lines that the preview of `n` output lines shows.
pub open spec fn preview_len(n: nat) -> int {
    if n < PREVIEW_LINES {
        n as int
    } else {
        PREVIEW_LINES as int
    }
}

/// What a finished cleaning reports: how many messages were kept, the first
/// lines of the output, and where it was saved.
pub struct CleanResult {
    pub lines_count: usize,
    pub preview: String,
    pub out_path: String,
}

/// The output lines joined with line breaks.
pub fn full_text(lines: &Vec<String>) -> (r: String)
    ensures
        r@ == join(views(lines@), seq!['\n']),
{
    let sep = vec!['\n'];
    proof {
        assert(sep@ =~= seq!['\n']);
    }
    let r = join_prefix(lines, lines.len(), &sep);
    proof {
        assert(views(lines@).take(lines.len() as int) =~= views(lines@));
    }
    r
}

/// The first lines of the output, as many as the preview shows, joined with
/// line breaks.
pub fn preview_text(lines: &Vec<String>) -> (r: String)
    ensures
        r@ == join(views(lines@).take(preview_len(lines.len() as nat)), seq!['\n']),
{
    let sep = vec!['\n'];
    proof {
        assert(sep@ =~= seq!['\n']);
    }
    let n = if lines.len() < PREVIEW_LINES {
        lines.len()
    } else {
        PREVIEW_LINES
    };
    join_prefix(lines, n, &sep)
}

/// Cleans the text of a log and prepares everything that is saved and
/// reported: the result to report, with `out_path` where the text is saved,
/// and the text to save.
pub fn process_log_text(
    content: &str,
    excluded_words: &Vec<String>,
    add_spaces: bool,
    remove_non_rp: bool,
    out_path: String,
) -> (r: (CleanResult, String))
    ensures
        ({
            let lines = cleaned_lines(
                lines_of(content@),
                views(excluded_words@),
                add_spaces,
                remove_non_rp,
            );
            &&& r.0.lines_count == kept_count(
                lines_of(content@),
                views(excluded_words@),
                remove_non_rp,
            )
            &&& r.0.preview@ == join(lines.take(preview_len(lines.len())), seq!['\n'])
            &&& r.0.out_path@ == out_path@
            &&& r.1@ == join(lines, seq!['\n'])
        }),
{
    let (lines, count) = clean_log(content, excluded_words, add_spaces, remove_non_rp);
    let text = full_text(&lines);
    let preview = preview_text(&lines);
    proof {
        assert(views(lines@).len() == lines.len());
    }
    (CleanResult { lines_count: count, preview, out_path }, text)
}

/// `cleaned_`, the prefix of a cleaned log's file name.
pub open spec fn cleaned_prefix() -> Seq<char> {
    seq!['c', 'l', 'e', 'a', 'n', 'e', 'd', '_']
}

/// `.gz`, the extension of a compressed log.
pub open spec fn gz_suffix() -> Seq<char> {
    seq!['.', 'g', 'z']
}

fn gz_suffix_chars() -> (v: Vec<char>)
    ensures
        v@ == gz_suffix(),
{
    let v = vec!['.', 'g', 'z'];
    proof {
        assert(v@ =~= gz_suffix());
    }
    v
}

/// The file name under which the cleaned log of `raw_file_name` is saved:
/// `cleaned_` before the name with every `.gz` taken out.
pub fn output_file_name(raw_file_name: &str) -> (r: String)
    ensures
        r@ == cleaned_prefix() + remove_all(raw_file_name@, gz_suffix()),
{
    let mut name = vec!['c', 'l', 'e', 'a', 'n', 'e', 'd', '_'];
    proof {
        assert(name@ =~= cleaned_prefix());
    }
    let raw = chars_of(raw_file_name);
    let rest = remove_all_exec(&raw, &gz_suffix_chars());
    let mut i: usize = 0;
    while i < rest.len()
        invariant
            i <= rest.len(),
            name@ == cleaned_prefix() + rest@.take(i as int),
        decreases rest.len() - i,
    {
        name.push(rest[i]);
        i += 1;
        proof {
            assert(name@ =~= cleaned_prefix() + rest@.take(i as int));
        }
    }
    proof {
        assert(rest@.take(rest.len() as int) =~= rest@);
    }
    string_of(name.as_slice())
}

/// Whether a file of this name has the extension `gz`, as
/// `Path::extension` reads it: the name ends in `.gz` and something stands
/// before that dot.
pub fn has_gz_extension(file_name: &str) -> (r: bool)
    ensures
        r == (ends_with(file_name@, gz_suffix()) && file_name@.len() > 3),
{
    let name = chars_of(file_name);
    ends_with_exec(&name, &gz_suffix_chars()) && name.len() > 3
}


/// The phrases of a word-list file: its lines, trimmed, without the empty
/// ones.
pub fn parse_word_list(content: &str) -> (r: Vec<String>)
    ensures
        views(r@) == nonempty_trimmed(lines_of(content@)),
{
    proof {
        lemma_nonempty_trimmed_lines(content@);
    }
    split_trimmed_nonempty(content, '\n')
}

/// The phrases excluded in one run: the user's own, followed by those of the
/// base list when it is in use.
pub fn excluded_for_run(
    excluded_words: Vec<String>,
    use_base_list: bool,
    base_words: Vec<String>,
) -> (r: Vec<String>)
    ensures
        views(r@) == if use_base_list {
            views(excluded_words@) + views(base_words@)
        } else {
            views(excluded_words@)
        },
{
    let mut all = excluded_words;
    if use_base_list {
        let ghost first = all@;
        let mut i: usize = 0;
        while i < base_words.len()
            invariant
                i <= base_words.len(),
                views(all@) == views(first) + views(base_words@).take(i as int),
            decreases base_words.len() - i,
        {
            let ghost prev = all@;
            let w = base_words[i].clone();
            assert(w == base_words@[i as int]);
            all.push(w);
            proof {
                assert(views(all@) =~= views(prev).push(w@));
                assert(views(base_words@).take(i + 1) =~= views(base_words@).take(i as int).push(
                    w@,
                ));
            }
            i += 1;
        }
        proof {
            assert(views(base_words@).take(base_words.len() as int) =~= views(base_words@));
        }
    }
    all
}

/// Whether a freshly fetched base list differs from the one on disk, the two
/// compared trimmed.
pub fn base_list_needs_update(fetched: &str, current: &str) -> (r: bool)
    ensures
        r == (trim(fetched@) != trim(current@)),
{
    let a = chars_of(fetched);
    let b = chars_of(current);
    let ta = trimmed(&a, 0, a.len());
    let tb = trimmed(&b, 0, b.len());
    proof {
        assert(a@.subrange(0, a@.len() as int) =~= a@);
        assert(b@.subrange(0, b@.len() as int) =~= b@);
    }
    !same_chars(&ta, &tb)
}

/// Where the shared base list is published.
pub const BASE_LIST_URL: &'static str =
    "https://raw.githubusercontent.com/Gatabarr/logcleaner-baselist/main/base_list.txt";

/// The decimal digits.
pub open spec fn digit_chars() -> Seq<char> {
    seq!['0', '1', '2', '3', '4', '5', '6', '7', '8', '9']
}

/// `n` written in decimal, without leading zeros, as `{}` formats it.
pub open spec fn decimal(n: nat) -> Seq<char>
    decreases n,
{
    if n < 10 {
        seq![digit_chars()[n as int]]
    } else {
        decimal(n / 10).push(digit_chars()[(n % 10) as int])
    }
}

fn digit_char(d: u64) -> (c: char)
    requires
        d < 10,
    ensures
        c == digit_chars()[d as int],
{
    let digits = vec!['0', '1', '2', '3', '4', '5', '6', '7', '8', '9'];
    proof {
        assert(digits@ =~= digit_chars());
    }
    digits[d as usize]
}

/// Appends `n` in decimal to `s`.
fn push_decimal(s: &mut String, n: u64)
    ensures
        final(s)@ == old(s)@ + decimal(n as nat),
    decreases n,
{
    if n >= 10 {
        push_decimal(s, n / 10);
    }
    let ghost mid = s@;
    s.push(digit_char(n % 10));
    proof {
        if n < 10 {
            assert(mid =~= old(s)@);
            assert(s@ =~= old(s)@ + seq![digit_chars()[n as int]]);
        } else {
            assert(s@ =~= old(s)@ + decimal((n / 10) as nat).push(digit_chars()[(n % 10) as int]));
        }
    }
}

/// The address from which the base list is fetched: `base` with the time
/// stamp as the query `t`, so that no cache answers in its place.
pub fn update_url(base: &str, timestamp: u64) -> (r: String)
    ensures
        r@ == base@ + seq!['?', 't', '='] + decimal(timestamp as nat),
{
    let mut s = base.to_owned();
    s.push('?');
    s.push('t');
    s.push('=');
    proof {
        assert(s@ =~= base@ + seq!['?', 't', '=']);
    }
    push_decimal(&mut s, timestamp);
    s
}

/// Whether `a` and `b` hold the same characters.
fn same_chars(a: &Vec<char>, b: &Vec<char>) -> (r: bool)
    ensures
        r == (a@ == b@),
{
    if a.len() != b.len() {
        return false;
    }
    let mut i: usize = 0;
    while i < a.len()
        invariant
            a.len() == b.len(),
            i <= a.len(),
            forall|j: int| 0 <= j < i ==> a@[j] == b@[j],
        decreases a.len() - i,
    {
        if a[i] != b[i] {
            return false;
        }
        i += 1;
    }
    proof {
        assert(a@ =~= b@);
    }
    true
}

/// The base list of phrases that is written out when none is on disk yet:
/// the server's recurring system messages.
pub const DEFAULT_BASE_LIST: &'static str = "
        ► Нажми ◄\n
        Добро пожаловать на материк Миртан\n
        Получить помощь по командам /ehelp. Подать жалобу - /report, задать вопрос - /ask.\n
        Вам доступен Фолиант Знаний! Начните исследовать мир, открыв его по команде /folio.\n
        доступ к важным системам, а так же раздел информации для новичков по пунктам.\n
        Не знаете куда пойти и какие локации есть? Откройте онлайн карту - map.minefite.net.\n
        Новичок в РП или майнкрафте? Откройте наши гайды для новичков в игре! /newinfo\n
        Если живете и играете в городе фракции, купите ключи для закрытия своих сундуков и дверей!\n
        Ключи доступны в крафте по команде /crafting, в разделе прочее!\n
        Доступна новая версия Plasmo Voice\n
        §eJourneyMap:§f Нажмите\n
        Вы не можете использовать\n
        [Земли]\n
        [АФК+]\n
        ПЭЙ ДЭЙ\n
        Откройте наше игровое меню по команде /mn! Там доступны все основные меню и быстрый\n
        [Отладка]\n
        [Оповещение] »\n
        Ты достиг нового уровня и получил очко\n
        Используйте /profile чтобы увидеть новую статистику!\n
        Вы успешно повысили уровень\n
        Поздравляем, вы достигли уровня\n
        [Заведение]\n
        [FeedbackForwardingSender]\n
        временно забанил\n
        Загрузка модели\n
        Ваш рост был изменен\n
        был кикнут администратором";

/// Why a log could not be cleaned.
#[derive(PartialEq, Eq, Structural, Clone, Copy, Debug)]
pub enum CleanError {
    /// The compressed log could not be read.
    ArchiveUnreadable,
    /// The compressed log did not hold text.
    ArchiveNotText,
    /// The log could not be read as text.
    FileUnreadable,
    /// The cleaned log could not be written.
    WriteFailed,
}

/// The message shown for `e`.
pub open spec fn error_message(e: CleanError) -> Seq<char> {
    match e {
        CleanError::ArchiveUnreadable => "Ошибка архива"@,
        CleanError::ArchiveNotText => "Не текст внутри GZ"@,
        CleanError::FileUnreadable => "Ошибка чтения файла"@,
        CleanError::WriteFailed => "Ошибка записи в файл"@,
    }
}

impl CleanError {
    /// The message shown to the user.
    pub fn message(&self) -> (s: String)
        ensures
            s@ == error_message(*self),
    {
        match self {
            CleanError::ArchiveUnreadable => "Ошибка архива".to_owned(),
            CleanError::ArchiveNotText => "Не текст внутри GZ".to_owned(),
            CleanError::FileUnreadable => "Ошибка чтения файла".to_owned(),
            CleanError::WriteFailed => "Ошибка записи в файл".to_owned(),
        }
    }
}


/// What every kept message is: not empty, already trimmed, free of every
/// excluded phrase that counts, and, when out-of-character messages are
/// removed, not one of them.
pub open spec fn well_formed_message(
    msg: Seq<char>,
    excluded: Seq<Seq<char>>,
    remove_non_rp: bool,
) -> bool {
    &&& msg.len() > 0
    &&& trim(msg) == msg
    &&& !is_excluded(msg, excluded)
    &&& remove_non_rp ==> !is_out_of_character(msg)
}

/// A kept message is the line's message and is well formed.
pub proof fn lemma_kept_message_well_formed(
    line: Seq<char>,
    excluded: Seq<Seq<char>>,
    remove_non_rp: bool,
)
    ensures
        kept_message(line, excluded, remove_non_rp) matches Some(m) ==> message_of(line) == Some(
            m,
        ) && well_formed_message(m, excluded, remove_non_rp),
{
    if let Some(start) = message_start(line) {
        if start < line.len() {
            let raw = raw_message(line, start);
            lemma_trim_idempotent(remove_all(remove_all(raw, chat_tag()), pm_tag()));
        }
    }
}

/// The layout of the output: one line per kept message, or, with spacing,
/// the message and an empty line after it; every message line well formed.
pub proof fn lemma_cleaned_lines_layout(
    lines: Seq<Seq<char>>,
    excluded: Seq<Seq<char>>,
    add_spaces: bool,
    remove_non_rp: bool,
)
    ensures
        cleaned_lines(lines, excluded, add_spaces, remove_non_rp).len() == (if add_spaces {
            2 * kept_count(lines, excluded, remove_non_rp)
        } else {
            kept_count(lines, excluded, remove_non_rp)
        }),
        forall|i: int|
            0 <= i < cleaned_lines(lines, excluded, add_spaces, remove_non_rp).len() ==> if add_spaces
                && i % 2 == 1 {
                #[trigger] cleaned_lines(lines, excluded, add_spaces, remove_non_rp)[i].len() == 0
            } else {
                well_formed_message(
                    cleaned_lines(lines, excluded, add_spaces, remove_non_rp)[i],
                    excluded,
                    remove_non_rp,
                )
            },
    decreases lines.len(),
{
    if lines.len() > 0 {
        let init = lines.drop_last();
        lemma_cleaned_lines_layout(init, excluded, add_spaces, remove_non_rp);
        lemma_kept_message_well_formed(lines.last(), excluded, remove_non_rp);
        let before = cleaned_lines(init, excluded, add_spaces, remove_non_rp);
        let added = emitted(lines.last(), excluded, add_spaces, remove_non_rp);
        let all = cleaned_lines(lines, excluded, add_spaces, remove_non_rp);
        assert(all == before + added);
        assert forall|i: int| 0 <= i < all.len() implies if add_spaces && i % 2 == 1 {
            #[trigger] all[i].len() == 0
        } else {
            well_formed_message(all[i], excluded, remove_non_rp)
        } by {
            if i < before.len() {
                assert(all[i] == before[i]);
            } else {
                assert(all[i] == added[i - before.len()]);
            }
        }
    }
}

/// The preview is the beginning of the saved text.
pub proof fn lemma_preview_starts_saved_text(lines: Seq<Seq<char>>)
    ensures
        is_prefix(
            join(lines.take(preview_len(lines.len())), seq!['\n']),
            join(lines, seq!['\n']),
        ),
{
    lemma_join_take_is_prefix(lines, preview_len(lines.len()), seq!['\n']);
}


/// Every phrase read from a word-list file is one trimmed, non-empty line.
pub proof fn lemma_word_list_phrases(content: Seq<char>)
    ensures
        forall|i: int|
            0 <= i < nonempty_trimmed(lines_of(content)).len() ==> {
                let w = #[trigger] nonempty_trimmed(lines_of(content))[i];
                &&& w.len() > 0
                &&& trim(w) == w
                &&& free_of(w, '\n')
            },
{
    lemma_nonempty_trimmed_lines(content);
    lemma_split_char_pieces_free(content, '\n');
    lemma_nonempty_trimmed_items(split_char(content, '\n'), '\n');
}


/// The message of a line without line breaks has none either.
proof fn lemma_message_free(line: Seq<char>)
    requires
        free_of(line, '\n'),
    ensures
        message_of(line) matches Some(m) ==> free_of(m, '\n'),
{
    lemma_find(line, chat_tag());
    lemma_find(line, pm_tag());
    if let Some(start) = message_start(line) {
        if start < line.len() {
            assert(start >= 0);
            let tail = line.skip(start);
            assert forall|j: int| 0 <= j < tail.len() implies tail[j] != '\n' by {
                assert(tail[j] == line[start + j]);
            }
            lemma_trim_free(tail, '\n');
            let raw0 = trim(tail);
            if raw0.len() > 0 && raw0[0] == ':' {
                let d = raw0.drop_first();
                assert forall|j: int| 0 <= j < d.len() implies d[j] != '\n' by {
                    assert(d[j] == raw0[j + 1]);
                }
                lemma_trim_free(d, '\n');
            }
            let raw = raw_message(line, start);
            lemma_remove_all_free(raw, chat_tag(), '\n');
            lemma_remove_all_free(remove_all(raw, chat_tag()), pm_tag(), '\n');
            lemma_trim_free(remove_all(remove_all(raw, chat_tag()), pm_tag()), '\n');
        }
    }
}

/// Kept messages hold no line break.
proof fn lemma_kept_messages_free(
    lines: Seq<Seq<char>>,
    excluded: Seq<Seq<char>>,
    remove_non_rp: bool,
)
    requires
        forall|i: int| 0 <= i < lines.len() ==> free_of(#[trigger] lines[i], '\n'),
    ensures
        forall|i: int|
            0 <= i < cleaned_lines(lines, excluded, false, remove_non_rp).len() ==> free_of(
                #[trigger] cleaned_lines(lines, excluded, false, remove_non_rp)[i],
                '\n',
            ),
    decreases lines.len(),
{
    if lines.len() > 0 {
        let init = lines.drop_last();
        assert forall|i: int| 0 <= i < init.len() implies free_of(#[trigger] init[i], '\n') by {
            assert(init[i] == lines[i]);
        }
        lemma_kept_messages_free(init, excluded, remove_non_rp);
        assert(free_of(lines[lines.len() - 1], '\n'));
        lemma_message_free(lines.last());
        let before = cleaned_lines(init, excluded, false, remove_non_rp);
        let added = emitted(lines.last(), excluded, false, remove_non_rp);
        let all = cleaned_lines(lines, excluded, false, remove_non_rp);
        assert forall|i: int| 0 <= i < all.len() implies free_of(#[trigger] all[i], '\n') by {
            if i < before.len() {
                assert(all[i] == before[i]);
            } else {
                assert(all[i] == added[i - before.len()]);
            }
        }
    }
}

/// `msgs` with an empty line after each.
pub open spec fn with_blank_lines(msgs: Seq<Seq<char>>) -> Seq<Seq<char>>
    decreases msgs.len(),
{
    if msgs.len() == 0 {
        Seq::<Seq<char>>::empty()
    } else {
        with_blank_lines(msgs.drop_last()) + seq![msgs.last(), Seq::<char>::empty()]
    }
}

/// Spacing puts an empty line after each kept message and changes nothing
/// else.
pub proof fn lemma_spacing_adds_blank_lines(
    lines: Seq<Seq<char>>,
    excluded: Seq<Seq<char>>,
    remove_non_rp: bool,
)
    ensures
        cleaned_lines(lines, excluded, true, remove_non_rp) == with_blank_lines(
            cleaned_lines(lines, excluded, false, remove_non_rp),
        ),
    decreases lines.len(),
{
    if lines.len() > 0 {
        let init = lines.drop_last();
        lemma_spacing_adds_blank_lines(init, excluded, remove_non_rp);
        let plain = cleaned_lines(init, excluded, false, remove_non_rp);
        match kept_message(lines.last(), excluded, remove_non_rp) {
            Some(m) => {
                assert(plain.push(m).drop_last() =~= plain);
                assert(plain + seq![m] =~= plain.push(m));
            },
            None => {
                assert(plain + Seq::<Seq<char>>::empty() =~= plain);
                assert(cleaned_lines(init, excluded, true, remove_non_rp) + Seq::<
                    Seq<char>,
                >::empty() =~= cleaned_lines(init, excluded, true, remove_non_rp));
            },
        }
    }
}

/// Each message with a line break after it.
pub open spec fn each_with_break(msgs: Seq<Seq<char>>) -> Seq<Seq<char>> {
    msgs.map_values(|m: Seq<char>| m.push('\n'))
}

/// Joined with line breaks, the messages with empty lines after them are
/// the messages each followed by a line break.
pub proof fn lemma_join_with_blank_lines(msgs: Seq<Seq<char>>)
    ensures
        join(with_blank_lines(msgs), seq!['\n']) == join(each_with_break(msgs), seq!['\n']),
    decreases msgs.len(),
{
    let nl = seq!['\n'];
    let e = Seq::<char>::empty();
    if msgs.len() == 1 {
        let m = msgs[0];
        let d = msgs.drop_last();
        assert(d =~= Seq::<Seq<char>>::empty());
        assert(with_blank_lines(d) == Seq::<Seq<char>>::empty());
        assert(msgs.last() == m);
        let w = with_blank_lines(msgs);
        assert(w == with_blank_lines(d) + seq![m, e]);
        assert(w =~= seq![m, e]);
        assert(seq![m, e].drop_last() =~= seq![m]);
        assert(join(seq![m], nl) == m);
        assert(join(w, nl) == join(w.drop_last(), nl) + nl + w.last());
        assert(join(w, nl) =~= m + nl + e);
        assert(each_with_break(msgs) =~= seq![m.push('\n')]);
        assert(m + nl + e =~= m.push('\n'));
    } else if msgs.len() > 1 {
        let init = msgs.drop_last();
        let m = msgs.last();
        lemma_join_with_blank_lines(init);
        let w0 = with_blank_lines(init);
        let w = with_blank_lines(msgs);
        assert(w =~= w0.push(m).push(e));
        assert(w0.len() >= 1) by {
            assert(w0 =~= with_blank_lines(init.drop_last()) + seq![init.last(), e]);
        }
        assert(w0.push(m).push(e).drop_last() =~= w0.push(m));
        assert(w0.push(m).drop_last() =~= w0);
        let b = each_with_break(msgs);
        assert(b.drop_last() =~= each_with_break(init));
        assert(b.last() == m.push('\n'));
        assert(w.last() == e);
        assert(join(w, nl) == join(w.drop_last(), nl) + nl + w.last());
        assert(w0.push(m).last() == m);
        assert(join(w0.push(m), nl) == join(w0.push(m).drop_last(), nl) + nl + w0.push(m).last());
        assert(join(w, nl) =~= join(w0, nl) + nl + m + nl + e);
        assert(join(b, nl) =~= join(each_with_break(init), nl) + nl + m.push('\n'));
        assert(join(w0, nl) + nl + m + nl + e =~= join(each_with_break(init), nl) + nl + m.push(
            '\n',
        ));
    } else {
        assert(each_with_break(msgs) =~= Seq::<Seq<char>>::empty());
    }
}

/// Spacing keeps the count of messages; without messages both texts are
/// empty; otherwise the spaced text is the unspaced one with each of its
/// lines followed by a line break.
pub proof fn lemma_spacing_law(content: Seq<char>, excluded: Seq<Seq<char>>, remove_non_rp: bool)
    ensures
        ({
            let lines = lines_of(content);
            let plain = join(cleaned_lines(lines, excluded, false, remove_non_rp), seq!['\n']);
            let spaced = join(cleaned_lines(lines, excluded, true, remove_non_rp), seq!['\n']);
            &&& kept_count(lines, excluded, remove_non_rp) == 0 ==> plain.len() == 0
                && spaced.len() == 0
            &&& kept_count(lines, excluded, remove_non_rp) > 0 ==> spaced == join(
                each_with_break(split_char(plain, '\n')),
                seq!['\n'],
            )
        }),
{
    let lines = lines_of(content);
    let msgs = cleaned_lines(lines, excluded, false, remove_non_rp);
    lemma_cleaned_lines_layout(lines, excluded, false, remove_non_rp);
    lemma_spacing_adds_blank_lines(lines, excluded, remove_non_rp);
    lemma_join_with_blank_lines(msgs);
    if msgs.len() == 0 {
        assert(with_blank_lines(msgs) =~= Seq::<Seq<char>>::empty());
    } else {
        lemma_lines_free(content);
        lemma_kept_messages_free(lines, excluded, remove_non_rp);
        lemma_split_join(msgs, '\n');
    }
}


/// Every phrase of `fewer` is also in `more`.
pub open spec fn phrases_within(fewer: Seq<Seq<char>>, more: Seq<Seq<char>>) -> bool {
    forall|k: int| 0 <= k < fewer.len() ==> more.contains(#[trigger] fewer[k])
}

/// `idx` picks, in increasing positions of `b`, the elements of `a`.
pub open spec fn picks(idx: Seq<int>, a: Seq<Seq<char>>, b: Seq<Seq<char>>) -> bool {
    &&& idx.len() == a.len()
    &&& forall|i: int| 0 <= i < idx.len() ==> 0 <= #[trigger] idx[i] < b.len() && b[idx[i]] == a[i]
    &&& forall|i: int, j: int| 0 <= i < j < idx.len() ==> #[trigger] idx[i] < #[trigger] idx[j]
}

/// `a` is `b` with some elements left out, the rest in the same order.
pub open spec fn is_subsequence(a: Seq<Seq<char>>, b: Seq<Seq<char>>) -> bool {
    exists|idx: Seq<int>| picks(idx, a, b)
}

/// A message kept under stricter settings (more excluded phrases, or the
/// out-of-character filter turned on) is kept, unchanged, under the looser
/// ones.
pub proof fn lemma_stricter_settings_keep_line(
    line: Seq<char>,
    loose: Seq<Seq<char>>,
    loose_rp: bool,
    strict: Seq<Seq<char>>,
    strict_rp: bool,
)
    requires
        phrases_within(loose, strict),
        loose_rp ==> strict_rp,
    ensures
        kept_message(line, strict, strict_rp) is Some ==> kept_message(line, loose, loose_rp)
            == kept_message(line, strict, strict_rp),
{
    if let Some(msg) = message_of(line) {
        if is_excluded(msg, loose) {
            let k = choose|k: int|
                0 <= k < loose.len() && phrase_counts(loose[k]) && contains(
                    msg,
                    trim(#[trigger] loose[k]),
                );
            assert(strict.contains(loose[k]));
            let j = choose|j: int| 0 <= j < strict.len() && strict[j] == loose[k];
            assert(phrase_counts(strict[j]) && contains(msg, trim(strict[j])));
        }
    }
}

/// Stricter settings keep some of the messages that looser ones keep, in
/// the same order, and never more of them.
pub proof fn lemma_stricter_settings_keep_subsequence(
    lines: Seq<Seq<char>>,
    loose: Seq<Seq<char>>,
    loose_rp: bool,
    strict: Seq<Seq<char>>,
    strict_rp: bool,
)
    requires
        phrases_within(loose, strict),
        loose_rp ==> strict_rp,
    ensures
        is_subsequence(
            cleaned_lines(lines, strict, false, strict_rp),
            cleaned_lines(lines, loose, false, loose_rp),
        ),
        kept_count(lines, strict, strict_rp) <= kept_count(lines, loose, loose_rp),
    decreases lines.len(),
{
    if lines.len() == 0 {
        let idx = Seq::<int>::empty();
        assert(picks(idx, Seq::<Seq<char>>::empty(), Seq::<Seq<char>>::empty()));
    } else {
        let init = lines.drop_last();
        let line = lines.last();
        lemma_stricter_settings_keep_subsequence(init, loose, loose_rp, strict, strict_rp);
        lemma_stricter_settings_keep_line(line, loose, loose_rp, strict, strict_rp);
        let a = cleaned_lines(init, strict, false, strict_rp);
        let b = cleaned_lines(init, loose, false, loose_rp);
        let idx = choose|idx: Seq<int>| picks(idx, a, b);
        let a2 = cleaned_lines(lines, strict, false, strict_rp);
        let b2 = cleaned_lines(lines, loose, false, loose_rp);
        let eb = emitted(line, loose, false, loose_rp);
        assert(b2 == b + eb);
        match kept_message(line, strict, strict_rp) {
            Some(m) => {
                assert(a2 =~= a.push(m));
                assert(eb =~= seq![m]);
                let idx2 = idx.push(b.len() as int);
                assert forall|i: int| 0 <= i < idx2.len() implies 0 <= #[trigger] idx2[i] < b2.len()
                    && b2[idx2[i]] == a2[i] by {
                    if i < idx.len() {
                        assert(idx2[i] == idx[i]);
                        assert(b2[idx[i]] == b[idx[i]]);
                    }
                }
                assert forall|i: int, j: int| 0 <= i < j < idx2.len() implies #[trigger] idx2[i]
                    < #[trigger] idx2[j] by {
                    if j < idx.len() {
                        assert(idx2[i] == idx[i] && idx2[j] == idx[j]);
                    } else {
                        assert(idx2[i] == idx[i]);
                    }
                }
                assert(picks(idx2, a2, b2));
            },
            None => {
                assert(a2 =~= a);
                assert forall|i: int| 0 <= i < idx.len() implies 0 <= #[trigger] idx[i] < b2.len()
                    && b2[idx[i]] == a2[i] by {
                    assert(b2[idx[i]] == b[idx[i]]);
                }
                assert(picks(idx, a2, b2));
            },
        }
    }
}


/// A line keeps its message exactly when no excluded phrase whose trimmed
/// form is longer than two UTF-8 bytes occurs anywhere in the message, and,
/// with `remove_non_rp`, the message does not both open with `((` and close
/// with `))`; a line without a message keeps nothing.
pub proof fn lemma_kept_message_exactly(
    line: Seq<char>,
    excluded: Seq<Seq<char>>,
    remove_non_rp: bool,
)
    ensures
        message_of(line) is None ==> kept_message(line, excluded, remove_non_rp) is None,
        message_of(line) matches Some(m) ==> {
            let phrase_free = forall|k: int, i: int|
                0 <= k < excluded.len() && vstd::utf8::encode_utf8(trim(excluded[k])).len() > 2
                    && 0 <= i && i + trim(excluded[k]).len() <= m.len() ==> #[trigger] m.subrange(
                    i,
                    i + trim(#[trigger] excluded[k]).len(),
                ) != trim(excluded[k]);
            let wrapped = m.len() >= 2 && m[0] == '(' && m[1] == '(' && m[m.len() - 2] == ')'
                && m[m.len() - 1] == ')';
            &&& kept_message(line, excluded, remove_non_rp) is Some ==> kept_message(
                line,
                excluded,
                remove_non_rp,
            ) == Some(m)
            &&& kept_message(line, excluded, remove_non_rp) is Some <==> (phrase_free && !(
            remove_non_rp && wrapped))
        },
{
    if let Some(m) = message_of(line) {
        let phrase_free = forall|k: int, i: int|
            0 <= k < excluded.len() && vstd::utf8::encode_utf8(trim(excluded[k])).len() > 2 && 0
                <= i && i + trim(excluded[k]).len() <= m.len() ==> #[trigger] m.subrange(
                i,
                i + trim(#[trigger] excluded[k]).len(),
            ) != trim(excluded[k]);
        if is_excluded(m, excluded) {
            let k = choose|k: int|
                0 <= k < excluded.len() && phrase_counts(excluded[k]) && contains(
                    m,
                    trim(#[trigger] excluded[k]),
                );
            let i = choose|i: int| matches_at(m, trim(excluded[k]), i);
            assert(!phrase_free);
        } else {
            assert forall|k: int, i: int|
                0 <= k < excluded.len() && vstd::utf8::encode_utf8(trim(excluded[k])).len() > 2
                    && 0 <= i && i + trim(excluded[k]).len() <= m.len() implies #[trigger] m.subrange(
                i,
                i + trim(#[trigger] excluded[k]).len(),
            ) != trim(excluded[k]) by {
                if m.subrange(i, i + trim(excluded[k]).len()) == trim(excluded[k]) {
                    assert(matches_at(m, trim(excluded[k]), i));
                    assert(contains(m, trim(excluded[k])));
                }
            }
        }
        let wrapped = m.len() >= 2 && m[0] == '(' && m[1] == '(' && m[m.len() - 2] == ')' && m[m.len()
            - 1] == ')';
        if m.len() >= 2 {
            assert(m.take(2)[0] == m[0] && m.take(2)[1] == m[1]);
            assert(m.skip(m.len() - 2)[0] == m[m.len() - 2]);
            assert(m.skip(m.len() - 2)[1] == m[m.len() - 1]);
            if m[0] == '(' && m[1] == '(' {
                assert(m.take(2) =~= seq!['(', '(']);
            }
            if m[m.len() - 2] == ')' && m[m.len() - 1] == ')' {
                assert(m.skip(m.len() - 2) =~= seq![')', ')']);
            }
        }
        assert(is_out_of_character(m) <==> wrapped);
    }
}

/// An excluded phrase with at least three characters once trimmed always
/// counts, however long it is.
pub proof fn lemma_long_phrase_counts(phrase: Seq<char>)
    requires
        trim(phrase).len() >= 3,
    ensures
        phrase_counts(phrase),
{
    lemma_utf8_at_least_one_byte_each(trim(phrase));
}

/// The preview shows every line of an output of at most 75 lines, and
/// exactly 75 lines of a longer one.
pub proof fn lemma_preview_shows_at_most_75(n: nat)
    ensures
        0 <= preview_len(n) <= 75,
        n <= 75 ==> preview_len(n) == n,
        n >= 75 ==> preview_len(n) == 75,
{
}


/// The message starts right after a marker: after the first `[CHAT]` when
/// the first `[PM]` comes before it (or there is none), otherwise after the
/// first `[PM]`; a line with neither marker has no start.
pub proof fn lemma_message_starts_after_later_marker(line: Seq<char>)
    ensures
        message_start(line) is None <==> (!contains(line, chat_tag()) && !contains(
            line,
            pm_tag(),
        )),
        message_start(line) matches Some(st) ==> {
            ||| {
                &&& find(line, chat_tag()) == Some(st - 6)
                &&& line.subrange(st - 6, st) == seq!['[', 'C', 'H', 'A', 'T', ']']
                &&& find(line, pm_tag()) matches Some(p) ==> p < st - 6
            }
            ||| {
                &&& find(line, pm_tag()) == Some(st - 4)
                &&& line.subrange(st - 4, st) == seq!['[', 'P', 'M', ']']
                &&& find(line, chat_tag()) matches Some(c) ==> c < st - 4
            }
        },
{
    lemma_find(line, chat_tag());
    lemma_find(line, pm_tag());
    let c = find(line, chat_tag());
    let p = find(line, pm_tag());
    if c is Some && p is Some {
        let ci = c->0;
        let pi = p->0;
        if ci == pi {
            assert(matches_at(line, chat_tag(), ci));
            assert(matches_at(line, pm_tag(), pi));
            assert(line.subrange(ci, ci + 6)[1] == 'C');
            assert(line.subrange(pi, pi + 4)[1] == 'P');
            assert(line[ci + 1] == 'C');
            assert(false);
        }
    }
}

/// The value of a string of decimal digits.
pub open spec fn decimal_value(ds: Seq<char>) -> int
    decreases ds.len(),
{
    if ds.len() == 0 {
        0
    } else {
        10 * decimal_value(ds.drop_last()) + (ds.last() as int - '0' as int)
    }
}

/// The digit for `d` stands for `d`.
proof fn lemma_digit_value(d: int)
    requires
        0 <= d < 10,
    ensures
        digit_chars()[d] as int - '0' as int == d,
        '0' <= digit_chars()[d] <= '9',
{
    let ds = digit_chars();
    assert(ds[0] == '0' && ds[1] == '1' && ds[2] == '2' && ds[3] == '3' && ds[4] == '4');
    assert(ds[5] == '5' && ds[6] == '6' && ds[7] == '7' && ds[8] == '8' && ds[9] == '9');
}

/// `decimal(n)` is made of the digits `0` to `9`, has no leading zero unless
/// it is `0` itself, and reads back as `n`.
pub proof fn lemma_decimal_reads_back(n: nat)
    ensures
        decimal(n).len() >= 1,
        forall|i: int| 0 <= i < decimal(n).len() ==> '0' <= #[trigger] decimal(n)[i] <= '9',
        decimal(n)[0] == '0' ==> n == 0,
        decimal_value(decimal(n)) == n,
    decreases n,
{
    lemma_digit_value((n % 10) as int);
    if n < 10 {
        assert(decimal(n).drop_last() =~= Seq::<char>::empty());
        assert(decimal_value(Seq::<char>::empty()) == 0);
        assert(decimal(n).last() == digit_chars()[n as int]);
        assert(n % 10 == n);
    }
    if n >= 10 {
        lemma_decimal_reads_back(n / 10);
        let d = decimal(n / 10);
        let r = decimal(n);
        assert(r == d.push(digit_chars()[(n % 10) as int]));
        assert(r.drop_last() =~= d);
        assert(r.last() == digit_chars()[(n % 10) as int]);
        assert(decimal_value(r) == 10 * decimal_value(d) + (r.last() as int - '0' as int));
        assert(10 * (n / 10) + n % 10 == n);
        assert(r[0] == d[0]);
        assert forall|i: int| 0 <= i < r.len() implies '0' <= #[trigger] r[i] <= '9' by {
            if i < d.len() {
                assert(r[i] == d[i]);
            }
        }
    }
}

} // verus!
