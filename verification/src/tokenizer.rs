//! A SentencePiece vocabulary: text to token ids and back.
//!
//! Text is trimmed and marked: a `▁` before it, and one `▁` for each run of
//! white space inside it. Where the vocabulary has scores, the marked text is
//! split into characters and the adjacent pair with the highest score is
//! merged until none can be. Where it has none, the longest piece is taken
//! from the left each time. A character that no piece covers is spelled in
//! bytes, one piece `<0xHH>` each.

use vstd::hash_map::StringHashMap;
use vstd::prelude::*;
use vstd::utf8::encode_utf8;
use crate::floats::{minus_infinity, nan, numeric, score_rank};
use crate::text::{
    chars_of,
    find_char,
    index_from,
    is_white_space,
    lemma_index_from,
    lines,
    lines_read_back,
    part_of,
    past_space,
    push_chars,
    split_lines,
    text_of,
    texts,
    trim,
    trim_start,
    trimmed,
    trimming_keeps_trimmed_text,
    trimming_takes_off_what_surrounds,
    white_space,
    with_line_feeds,
    without_leading_space,
};

pub use crate::snake::to_snake_case;

verus! {

pub const PAD_ID: u32 = 0;

pub const EOS_ID: u32 = 1;

pub const BOS_ID: u32 = 2;

pub const UNK_ID: u32 = 3;

pub const TOOL_CALL_ID: u32 = 4;

pub const TOOLS_ID: u32 = 5;

/// The character that stands for a word boundary.
pub const SP_SPACE: char = '\u{2581}';

/// The id of a piece: the last place at which it stands in the vocabulary.
pub open spec fn id_of(pieces: Seq<Seq<char>>, piece: Seq<char>) -> Option<int>
    decreases pieces.len(),
{
    if pieces.len() == 0 {
        None
    } else if pieces.last() == piece {
        Some(pieces.len() - 1)
    } else {
        id_of(pieces.drop_last(), piece)
    }
}

pub proof fn lemma_id_of(pieces: Seq<Seq<char>>, piece: Seq<char>)
    ensures
        match id_of(pieces, piece) {
            Some(i) => 0 <= i < pieces.len() && pieces[i] == piece,
            None => !pieces.contains(piece),
        },
    decreases pieces.len(),
{
    if pieces.len() > 0 && pieces.last() != piece {
        lemma_id_of(pieces.drop_last(), piece);
        if pieces.contains(piece) {
            let i = choose|i: int| 0 <= i < pieces.len() && pieces[i] == piece;
            assert(pieces.drop_last()[i] == piece);
        }
    }
}

/// Marked text: a boundary first, and one for each run of white space.
pub open spec fn marked(t: Seq<char>) -> Seq<char>
    decreases t.len(),
{
    if t.len() == 0 {
        seq![SP_SPACE]
    } else if !white_space(t.last()) {
        marked(t.drop_last()).push(t.last())
    } else if t.len() >= 2 && white_space(t[t.len() - 2]) {
        marked(t.drop_last())
    } else {
        marked(t.drop_last()).push(SP_SPACE)
    }
}

fn mark(t: &[char]) -> (out: Vec<char>)
    ensures
        out@ == marked(t@),
{
    let mut out: Vec<char> = Vec::new();
    out.push(SP_SPACE);
    let mut after_space: bool = false;
    let mut i: usize = 0;
    assert(t@.take(0) =~= Seq::<char>::empty());
    assert(out@ =~= seq![SP_SPACE]);
    while i < t.len()
        invariant
            i <= t@.len(),
            out@ == marked(t@.take(i as int)),
            after_space == (i > 0 && white_space(t@[i - 1])),
        decreases t.len() - i,
    {
        let c: char = t[i];
        proof {
            let longer = t@.take(i + 1);
            assert(longer.drop_last() =~= t@.take(i as int));
            assert(longer.last() == c);
        }
        if is_white_space(c) {
            if !after_space {
                out.push(SP_SPACE);
                after_space = true;
            }
        } else {
            out.push(c);
            after_space = false;
        }
        i = i + 1;
    }
    assert(t@.take(i as int) =~= t@);
    out
}

/// An upper-case hexadecimal digit.
pub open spec fn hex_digit(n: int) -> char {
    if n < 10 {
        (48 + n) as char
    } else {
        (55 + n) as char
    }
}

/// The piece that spells one byte.
pub open spec fn byte_piece(b: u8) -> Seq<char> {
    seq!['<', '0', 'x', hex_digit(b as int / 16), hex_digit(b as int % 16), '>']
}

fn to_hex_digit(n: u8) -> (c: char)
    requires
        n < 16,
    ensures
        c == hex_digit(n as int),
{
    if n < 10 {
        (48 + n) as char
    } else {
        (55 + n) as char
    }
}

fn byte_fallback_piece(b: u8) -> (piece: Vec<char>)
    ensures
        piece@ == byte_piece(b),
{
    let mut piece: Vec<char> = Vec::new();
    piece.push('<');
    piece.push('0');
    piece.push('x');
    piece.push(to_hex_digit(b / 16));
    piece.push(to_hex_digit(b % 16));
    piece.push('>');
    assert(piece@ =~= byte_piece(b));
    piece
}

/// The UTF-8 bytes of one character.
pub fn bytes_of_char(c: char) -> (bytes: Vec<u8>)
    ensures
        bytes@ == encode_utf8(seq![c]),
{
    let mut one: Vec<char> = Vec::new();
    one.push(c);
    assert(one@ =~= seq![c]);
    bytes_of(&one)
}

/// The UTF-8 bytes of a run of characters.
pub fn bytes_of(chars: &[char]) -> (bytes: Vec<u8>)
    ensures
        bytes@ == encode_utf8(chars@),
{
    let s = text_of(chars);
    let view: &[u8] = s.as_str().as_bytes();
    let mut bytes: Vec<u8> = Vec::new();
    let mut i: usize = 0;
    while i < view.len()
        invariant
            i <= view@.len(),
            bytes@ == view@.take(i as int),
        decreases view.len() - i,
    {
        bytes.push(view[i]);
        i = i + 1;
        assert(bytes@ =~= view@.take(i as int));
    }
    assert(view@.take(i as int) =~= view@);
    bytes
}

/// The id of a piece, or the unknown token's.
pub open spec fn id_or_unknown(pieces: Seq<Seq<char>>, piece: Seq<char>) -> u32 {
    match id_of(pieces, piece) {
        Some(i) => i as u32,
        None => UNK_ID,
    }
}

/// A piece of the text being encoded: its characters and its id.
pub type PartSpec = (Seq<char>, u32);

/// The parts that spell one byte each.
pub open spec fn byte_parts(pieces: Seq<Seq<char>>, bytes: Seq<u8>) -> Seq<PartSpec> {
    Seq::new(
        bytes.len(),
        |i: int| (byte_piece(bytes[i]), id_or_unknown(pieces, byte_piece(bytes[i]))),
    )
}

/// The parts one character starts as: itself where it is a piece, else its
/// bytes.
pub open spec fn char_parts(pieces: Seq<Seq<char>>, c: char) -> Seq<PartSpec> {
    match id_of(pieces, seq![c]) {
        Some(i) => seq![(seq![c], i as u32)],
        None => byte_parts(pieces, encode_utf8(seq![c])),
    }
}

/// The parts a text starts as.
pub open spec fn initial_parts(pieces: Seq<Seq<char>>, s: Seq<char>) -> Seq<PartSpec>
    decreases s.len(),
{
    if s.len() == 0 {
        Seq::empty()
    } else {
        initial_parts(pieces, s.drop_last()) + char_parts(pieces, s.last())
    }
}

/// How high merging parts `i` and `i + 1` scores; `None` where their text is
/// no piece, or its score is NaN or minus infinity.
pub open spec fn merge_rank(
    pieces: Seq<Seq<char>>,
    scores: Seq<u32>,
    parts: Seq<PartSpec>,
    i: int,
) -> Option<int> {
    match id_of(pieces, parts[i].0 + parts[i + 1].0) {
        Some(id) => if nan(scores[id]) || minus_infinity(scores[id]) {
            None
        } else {
            Some(numeric(scores[id]))
        },
        None => None,
    }
}

/// Parts `i` and `i + 1` are the pair to merge: none scores higher, and none
/// before them scores as high.
pub open spec fn best_merge(
    pieces: Seq<Seq<char>>,
    scores: Seq<u32>,
    parts: Seq<PartSpec>,
    i: int,
) -> bool {
    &&& 0 <= i < parts.len() - 1
    &&& merge_rank(pieces, scores, parts, i) is Some
    &&& forall|j: int|
        #![trigger merge_rank(pieces, scores, parts, j)]
        0 <= j < parts.len() - 1 && merge_rank(pieces, scores, parts, j) is Some ==> merge_rank(
            pieces,
            scores,
            parts,
            j,
        )->0 <= merge_rank(pieces, scores, parts, i)->0 && (j < i ==> merge_rank(
            pieces,
            scores,
            parts,
            j,
        )->0 < merge_rank(pieces, scores, parts, i)->0)
}

/// The parts with `i` and `i + 1` merged into one.
pub open spec fn merged_at(pieces: Seq<Seq<char>>, parts: Seq<PartSpec>, i: int) -> Seq<PartSpec> {
    let text = parts[i].0 + parts[i + 1].0;
    parts.update(i, (text, id_or_unknown(pieces, text))).remove(i + 1)
}

/// The parts with every merge done.
pub open spec fn merge_all(
    pieces: Seq<Seq<char>>,
    scores: Seq<u32>,
    parts: Seq<PartSpec>,
) -> Seq<PartSpec>
    decreases parts.len(),
{
    if exists|i: int| best_merge(pieces, scores, parts, i) {
        let i = choose|i: int| best_merge(pieces, scores, parts, i);
        merge_all(pieces, scores, merged_at(pieces, parts, i))
    } else {
        parts
    }
}

/// The ids of a list of parts.
pub open spec fn part_ids(parts: Seq<PartSpec>) -> Seq<u32> {
    Seq::new(parts.len(), |i: int| parts[i].1)
}

/// The length of the longest piece that `s` starts with, of at most `k`
/// characters and at least one.
pub open spec fn longest(pieces: Seq<Seq<char>>, s: Seq<char>, k: int) -> Option<int>
    decreases k,
{
    if k <= 0 {
        None
    } else if id_of(pieces, s.take(k)) is Some {
        Some(k)
    } else {
        longest(pieces, s, k - 1)
    }
}

/// The ids of `s`, taking the longest piece each time.
pub open spec fn greedy_ids(pieces: Seq<Seq<char>>, s: Seq<char>) -> Seq<u32>
    decreases s.len(),
{
    if s.len() == 0 {
        Seq::empty()
    } else {
        match longest(pieces, s, s.len() as int) {
            Some(k) => if 0 < k <= s.len() {
                seq![id_or_unknown(pieces, s.take(k))] + greedy_ids(pieces, s.skip(k))
            } else {
                Seq::empty()
            },
            None => part_ids(byte_parts(pieces, encode_utf8(seq![s[0]]))) + greedy_ids(
                pieces,
                s.skip(1),
            ),
        }
    }
}

/// The ids of a text.
pub open spec fn encoded(pieces: Seq<Seq<char>>, scores: Seq<u32>, text: Seq<char>) -> Seq<u32> {
    let t = trimmed(text);
    if t.len() == 0 {
        Seq::empty()
    } else if scores.len() == 0 {
        greedy_ids(pieces, marked(t))
    } else {
        part_ids(merge_all(pieces, scores, initial_parts(pieces, marked(t))))
    }
}

/// A piece as it reads: a boundary is a space.
pub open spec fn respaced(piece: Seq<char>) -> Seq<char> {
    Seq::new(
        piece.len(),
        |i: int|
            if piece[i] == SP_SPACE {
                ' '
            } else {
                piece[i]
            },
    )
}

/// The text of token `id`; an id outside the vocabulary has none.
pub open spec fn token_text(pieces: Seq<Seq<char>>, id: u32) -> Seq<char> {
    if id < pieces.len() {
        respaced(pieces[id as int])
    } else {
        Seq::empty()
    }
}

/// The texts of the tokens, one after another.
pub open spec fn joined(pieces: Seq<Seq<char>>, ids: Seq<u32>) -> Seq<char>
    decreases ids.len(),
{
    if ids.len() == 0 {
        Seq::empty()
    } else {
        joined(pieces, ids.drop_last()) + token_text(pieces, ids.last())
    }
}

/// The text of a run of tokens.
pub open spec fn decoded(pieces: Seq<Seq<char>>, ids: Seq<u32>) -> Seq<char> {
    trim_start(joined(pieces, ids))
}

/// The piece that a vocabulary line gives: what stands before its first tab.
pub open spec fn line_piece(line: Seq<char>) -> Seq<char> {
    line.take(index_from(line, 0, '\t'))
}

/// Whether a vocabulary line gives a score.
pub open spec fn line_has_score(line: Seq<char>) -> bool {
    index_from(line, 0, '\t') < line.len()
}

/// The score that a vocabulary line gives, as text.
pub open spec fn line_score(line: Seq<char>) -> Option<Seq<char>> {
    if line_has_score(line) {
        Some(trimmed(line.skip(index_from(line, 0, '\t') + 1)))
    } else {
        None
    }
}

/// The pieces of a vocabulary file.
pub open spec fn file_pieces(content: Seq<char>) -> Seq<Seq<char>> {
    let all = lines(content);
    Seq::new(all.len(), |i: int| line_piece(all[i]))
}

/// Whether any line of a vocabulary file gives a score.
pub open spec fn file_has_scores(content: Seq<char>) -> bool {
    exists|i: int| 0 <= i < lines(content).len() && line_has_score(#[trigger] lines(content)[i])
}

/// The scores of a vocabulary file, given the number that each line's score
/// text stands for. A line without a score counts as zero. A file without any
/// score has no scores.
pub open spec fn file_scores(content: Seq<char>, read: Seq<u32>) -> Seq<u32> {
    let all = lines(content);
    if file_has_scores(content) {
        Seq::new(
            all.len(),
            |i: int|
                if line_has_score(all[i]) {
                    read[i]
                } else {
                    0u32
                },
        )
    } else {
        Seq::empty()
    }
}

/// The views of a list of optional strings.
pub open spec fn opt_texts(v: Seq<Option<String>>) -> Seq<Option<Seq<char>>> {
    Seq::new(
        v.len(),
        |i: int|
            match v[i] {
                Some(s) => Some(s@),
                None => None,
            },
    )
}

/// The score texts of a vocabulary file, a line at a time.
pub fn score_texts(content: &str) -> (out: Vec<Option<String>>)
    ensures
        opt_texts(out@) == Seq::new(
            lines(content@).len(),
            |i: int| line_score(lines(content@)[i]),
        ),
{
    let chars = chars_of(content);
    let all = split_lines(&chars);
    let mut out: Vec<Option<String>> = Vec::new();
    let mut i: usize = 0;
    while i < all.len()
        invariant
            i <= all@.len(),
            texts(all@) == lines(content@),
            out@.len() == i,
            forall|k: int|
                0 <= k < i ==> #[trigger] opt_texts(out@)[k] == line_score(lines(content@)[k]),
        decreases all.len() - i,
    {
        let ghost before = out@;
        assert(all@[i as int]@ == lines(content@)[i as int]);
        let total: usize = all[i].len();
        let tab: usize = find_char(&all[i], 0, '\t');
        if tab == total {
            out.push(None);
        } else {
            let rest = part_of(&all[i], tab + 1, total);
            assert(rest@ =~= all@[i as int]@.skip(tab + 1));
            out.push(Some(text_of(&trim(&rest))));
        }
        assert(opt_texts(out@)[i as int] == line_score(lines(content@)[i as int]));
        assert forall|k: int| 0 <= k <= i implies #[trigger] opt_texts(out@)[k] == line_score(
            lines(content@)[k],
        ) by {
            if k < i {
                assert(opt_texts(before)[k] == line_score(lines(content@)[k]));
            }
        }
        i = i + 1;
    }
    assert(opt_texts(out@) =~= Seq::new(
        lines(content@).len(),
        |i: int| line_score(lines(content@)[i]),
    ));
    out
}

/// One part while merging.
struct Part {
    text: Vec<char>,
    id: u32,
}

spec fn views(parts: Seq<Part>) -> Seq<PartSpec> {
    Seq::new(parts.len(), |i: int| (parts[i].text@, parts[i].id))
}

/// A loaded vocabulary.
pub struct Vocabulary {
    /// The pieces, by id.
    pub id_to_piece: Vec<String>,
    /// The ids, by piece; where a piece stands twice, its last id.
    pub piece_to_id: StringHashMap<u32>,
    scores: Vec<u32>,
    max_piece_chars: usize,
}

impl Vocabulary {
    /// The pieces, by id.
    pub closed spec fn pieces(&self) -> Seq<Seq<char>> {
        Seq::new(self.id_to_piece@.len(), |i: int| self.id_to_piece@[i]@)
    }

    /// The merge scores, by id, as the bits of single-precision numbers; empty
    /// where the vocabulary has none.
    pub closed spec fn scores(&self) -> Seq<u32> {
        self.scores@
    }

    /// The two directions agree, and every piece has a score if any has.
    pub closed spec fn wf(&self) -> bool {
        &&& self.pieces().len() <= u32::MAX
        &&& forall|p: Seq<char>| #[trigger]
            self.piece_to_id@.contains_key(p) <==> id_of(self.pieces(), p) is Some
        &&& forall|p: Seq<char>| #[trigger]
            self.piece_to_id@.contains_key(p) ==> self.piece_to_id@[p] == id_of(
                self.pieces(),
                p,
            )->0
        &&& self.scores@.len() == 0 || self.scores@.len() == self.pieces().len()
        &&& forall|i: int|
            0 <= i < self.pieces().len() ==> (#[trigger] self.pieces()[i]).len()
                <= self.max_piece_chars
    }

    /// Read a vocabulary file: a piece to a line, with a tab and its score
    /// after it. `read[i]` is the number that the score text of line `i`
    /// stands for, as the bits of a single-precision number.
    pub fn parse(content: &str, read: &[u32]) -> (vocab: Self)
        requires
            lines(content@).len() <= u32::MAX,
            read@.len() == lines(content@).len(),
        ensures
            vocab.wf(),
            vocab.pieces() == file_pieces(content@),
            vocab.scores() == file_scores(content@, read@),
    {
        let chars = chars_of(content);
        let all = split_lines(&chars);
        let total: usize = all.len();
        let mut vocab = Vocabulary {
            id_to_piece: Vec::new(),
            piece_to_id: StringHashMap::new(),
            scores: Vec::new(),
            max_piece_chars: 0,
        };
        let mut has_scores: bool = false;
        let mut i: usize = 0;
        while i < total
            invariant
                i <= total == all@.len(),
                total <= u32::MAX,
                read@.len() == total,
                texts(all@) == lines(content@),
                vocab.wf(),
                vocab.pieces() == file_pieces(content@).take(i as int),
                vocab.scores@.len() == i,
                forall|k: int|
                    0 <= k < i ==> #[trigger] vocab.scores@[k] == (if line_has_score(
                        lines(content@)[k],
                    ) {
                        read@[k]
                    } else {
                        0u32
                    }),
                has_scores == exists|k: int|
                    0 <= k < i && line_has_score(#[trigger] lines(content@)[k]),
            decreases total - i,
        {
            let ghost before = vocab.pieces();
            let ghost line = lines(content@)[i as int];
            assert(all@[i as int]@ == line);
            let len: usize = all[i].len();
            let tab: usize = find_char(&all[i], 0, '\t');
            let scored: bool = tab < len;
            if scored {
                has_scores = true;
            }
            let score: u32 = if scored {
                read[i]
            } else {
                0
            };
            let piece_chars = part_of(&all[i], 0, tab);
            assert(piece_chars@ =~= line_piece(line));
            let piece = text_of(&piece_chars);
            if piece_chars.len() > vocab.max_piece_chars {
                vocab.max_piece_chars = piece_chars.len();
            }
            let copy = text_of(&piece_chars);
            vocab.piece_to_id.insert(copy, i as u32);
            vocab.id_to_piece.push(piece);
            vocab.scores.push(score);
            proof {
                let after = vocab.pieces();
                assert(after =~= before.push(line_piece(line)));
                assert(after.drop_last() =~= before);
                assert(after =~= file_pieces(content@).take(i + 1));
                assert(line_has_score(lines(content@)[i as int]) == scored);
            }
            i = i + 1;
        }
        proof {
            assert(file_pieces(content@).take(i as int) =~= file_pieces(content@));
        }
        if !has_scores {
            vocab.scores = Vec::new();
        }
        proof {
            assert(vocab.scores@ =~= file_scores(content@, read@));
        }
        vocab
    }

    /// The id of a piece.
    pub fn piece_id(&self, piece: &str) -> (id: Option<u32>)
        requires
            self.wf(),
        ensures
            match id {
                Some(i) => id_of(self.pieces(), piece@) == Some(i as int) && i
                    < self.pieces().len(),
                None => id_of(self.pieces(), piece@) is None,
            },
    {
        proof {
            lemma_id_of(self.pieces(), piece@);
        }
        match self.piece_to_id.get(piece) {
            Some(i) => Some(*i),
            None => None,
        }
    }

    fn id_of_chars(&self, piece: &[char]) -> (id: Option<u32>)
        requires
            self.wf(),
        ensures
            match id {
                Some(i) => id_of(self.pieces(), piece@) == Some(i as int) && i
                    < self.pieces().len(),
                None => id_of(self.pieces(), piece@) is None,
            },
    {
        let s = text_of(piece);
        self.piece_id(s.as_str())
    }

    /// The parts that spell a character's bytes.
    fn push_byte_parts(&self, out: &mut Vec<Part>, c: char)
        requires
            self.wf(),
        ensures
            views(final(out)@) == views(old(out)@) + byte_parts(
                self.pieces(),
                encode_utf8(seq![c]),
            ),
    {
        let ghost start = out@;
        let bytes = bytes_of_char(c);
        let mut i: usize = 0;
        assert(views(out@) =~= views(start) + byte_parts(self.pieces(), bytes@).take(0));
        while i < bytes.len()
            invariant
                i <= bytes@.len(),
                self.wf(),
                bytes@ == encode_utf8(seq![c]),
                views(out@) == views(start) + byte_parts(self.pieces(), bytes@).take(i as int),
            decreases bytes.len() - i,
        {
            let ghost before = out@;
            let text = byte_fallback_piece(bytes[i]);
            let id: u32 = match self.id_of_chars(&text) {
                Some(id) => id,
                None => UNK_ID,
            };
            out.push(Part { text, id });
            assert(views(out@) =~= views(before).push((text@, id)));
            assert(views(out@) =~= views(start) + byte_parts(self.pieces(), bytes@).take(i + 1));
            i = i + 1;
        }
        assert(byte_parts(self.pieces(), bytes@).take(i as int) =~= byte_parts(
            self.pieces(),
            bytes@,
        ));
    }

    fn start_parts(&self, s: &[char]) -> (out: Vec<Part>)
        requires
            self.wf(),
        ensures
            views(out@) == initial_parts(self.pieces(), s@),
    {
        let mut out: Vec<Part> = Vec::new();
        let mut i: usize = 0;
        assert(s@.take(0) =~= Seq::<char>::empty());
        assert(views(out@) =~= Seq::<PartSpec>::empty());
        while i < s.len()
            invariant
                i <= s@.len(),
                self.wf(),
                views(out@) == initial_parts(self.pieces(), s@.take(i as int)),
            decreases s.len() - i,
        {
            let ghost before = out@;
            let c: char = s[i];
            let mut one: Vec<char> = Vec::new();
            one.push(c);
            assert(one@ =~= seq![c]);
            match self.id_of_chars(&one) {
                Some(id) => {
                    out.push(Part { text: one, id });
                    assert(views(out@) =~= views(before) + seq![(seq![c], id)]);
                },
                None => {
                    self.push_byte_parts(&mut out, c);
                },
            }
            proof {
                assert(s@.take(i + 1).drop_last() =~= s@.take(i as int));
            }
            i = i + 1;
        }
        assert(s@.take(i as int) =~= s@);
        out
    }

    /// How high merging parts `i` and `i + 1` scores, and the merged part.
    fn try_merge(&self, parts: &[Part], i: usize) -> (found: Option<(i64, Part)>)
        requires
            self.wf(),
            self.scores().len() == self.pieces().len(),
            i + 1 < parts@.len(),
        ensures
            match found {
                Some((rank, part)) => {
                    &&& merge_rank(self.pieces(), self.scores(), views(parts@), i as int) == Some(
                        rank as int,
                    )
                    &&& part.text@ == parts@[i as int].text@ + parts@[i + 1].text@
                    &&& part.id == id_or_unknown(self.pieces(), part.text@)
                },
                None => merge_rank(self.pieces(), self.scores(), views(parts@), i as int) is None,
            },
    {
        let mut text: Vec<char> = Vec::new();
        push_chars(&mut text, &parts[i].text);
        push_chars(&mut text, &parts[i + 1].text);
        assert(text@ =~= parts@[i as int].text@ + parts@[i + 1].text@);
        match self.id_of_chars(&text) {
            Some(id) => match score_rank(self.scores[id as usize]) {
                Some(rank) => Some((rank, Part { text, id })),
                None => None,
            },
            None => None,
        }
    }

    /// The pair to merge, and what it becomes.
    fn find_merge(&self, parts: &[Part]) -> (found: Option<(usize, Part)>)
        requires
            self.wf(),
            self.scores().len() == self.pieces().len(),
        ensures
            match found {
                Some((i, part)) => {
                    &&& best_merge(self.pieces(), self.scores(), views(parts@), i as int)
                    &&& part.text@ == parts@[i as int].text@ + parts@[i + 1].text@
                    &&& part.id == id_or_unknown(self.pieces(), part.text@)
                },
                None => forall|i: int|
                    !best_merge(self.pieces(), self.scores(), views(parts@), i),
            },
    {
        let ghost v = views(parts@);
        let ghost ps = self.pieces();
        let ghost sc = self.scores();
        let total: usize = parts.len();
        let mut best: Option<(usize, i64, Part)> = None;
        let mut i: usize = 0;
        while total > 0 && i < total - 1
            invariant
                total == parts@.len(),
                i <= total,
                self.wf(),
                self.scores().len() == self.pieces().len(),
                v == views(parts@),
                ps == self.pieces(),
                sc == self.scores(),
                match best {
                    Some((b, rank, part)) => {
                        &&& b < i
                        &&& b + 1 < total
                        &&& merge_rank(ps, sc, v, b as int) == Some(rank as int)
                        &&& part.text@ == parts@[b as int].text@ + parts@[b + 1].text@
                        &&& part.id == id_or_unknown(ps, part.text@)
                        &&& forall|j: int|
                            0 <= j < i && #[trigger] merge_rank(ps, sc, v, j) is Some
                                ==> merge_rank(ps, sc, v, j)->0 <= rank && (j < b
                                ==> merge_rank(ps, sc, v, j)->0 < rank)
                    },
                    None => forall|j: int|
                        0 <= j < i ==> #[trigger] merge_rank(ps, sc, v, j) is None,
                },
            decreases total - i,
        {
            match self.try_merge(parts, i) {
                Some((rank, part)) => {
                    let better: bool = match &best {
                        Some((_, top, _)) => rank > *top,
                        None => true,
                    };
                    if better {
                        best = Some((i, rank, part));
                    }
                },
                None => {},
            }
            i = i + 1;
        }
        match best {
            Some((b, _, part)) => {
                assert(best_merge(ps, sc, v, b as int));
                Some((b, part))
            },
            None => None,
        }
    }

    fn merge(&self, start: Vec<Part>) -> (out: Vec<Part>)
        requires
            self.wf(),
            self.scores().len() == self.pieces().len(),
        ensures
            views(out@) == merge_all(self.pieces(), self.scores(), views(start@)),
    {
        let ghost ps = self.pieces();
        let ghost sc = self.scores();
        let mut parts: Vec<Part> = start;
        loop
            invariant
                self.wf(),
                self.scores().len() == self.pieces().len(),
                ps == self.pieces(),
                sc == self.scores(),
                merge_all(ps, sc, views(parts@)) == merge_all(ps, sc, views(start@)),
            decreases parts.len(),
        {
            let ghost before = parts@;
            match self.find_merge(&parts) {
                Some((i, part)) => {
                    parts.set(i, part);
                    let _ = parts.remove(i + 1);
                    proof {
                        let v = views(before);
                        best_merge_is_unique(ps, sc, v, i as int);
                        let j = choose|j: int| best_merge(ps, sc, v, j);
                        assert(i == j);
                        assert(views(parts@) =~= merged_at(ps, v, i as int));
                    }
                },
                None => {
                    return parts;
                },
            }
        }
    }

    /// The longest piece that the text starts with at `pos`.
    fn longest_at(&self, s: &[char], pos: usize) -> (found: Option<(usize, u32)>)
        requires
            self.wf(),
            pos < s@.len(),
        ensures
            match found {
                Some((k, id)) => {
                    &&& longest(self.pieces(), s@.skip(pos as int), s@.len() - pos) == Some(
                        k as int,
                    )
                    &&& 0 < k <= s@.len() - pos
                    &&& id == id_or_unknown(self.pieces(), s@.skip(pos as int).take(k as int))
                },
                None => longest(self.pieces(), s@.skip(pos as int), s@.len() - pos) is None,
            },
    {
        let ghost rest = s@.skip(pos as int);
        let total: usize = s.len();
        let mut k: usize = total - pos;
        if k > self.max_piece_chars {
            k = self.max_piece_chars;
        }
        proof {
            self.lemma_longest_is_bounded(rest, k as int, rest.len() as int);
        }
        while k > 0
            invariant
                pos + k <= total == s@.len(),
                self.wf(),
                rest == s@.skip(pos as int),
                longest(self.pieces(), rest, k as int) == longest(
                    self.pieces(),
                    rest,
                    rest.len() as int,
                ),
            decreases k,
        {
            let piece = part_of(s, pos, pos + k);
            assert(piece@ =~= rest.take(k as int));
            match self.id_of_chars(&piece) {
                Some(id) => {
                    return Some((k, id));
                },
                None => {},
            }
            k = k - 1;
        }
        None
    }

    proof fn lemma_longest_is_bounded(&self, s: Seq<char>, from: int, to: int)
        requires
            self.wf(),
            0 <= from <= to <= s.len(),
            from == s.len() || from >= self.max_piece_chars,
        ensures
            longest(self.pieces(), s, from) == longest(self.pieces(), s, to),
        decreases to - from,
    {
        if from < to {
            self.lemma_longest_is_bounded(s, from, to - 1);
            lemma_id_of(self.pieces(), s.take(to));
        }
    }

    fn encode_greedy(&self, s: &[char]) -> (ids: Vec<u32>)
        requires
            self.wf(),
        ensures
            ids@ == greedy_ids(self.pieces(), s@),
    {
        let ghost ps = self.pieces();
        let total: usize = s.len();
        let mut ids: Vec<u32> = Vec::new();
        let mut pos: usize = 0;
        assert(s@.skip(0) =~= s@);
        assert(ids@ + greedy_ids(ps, s@) =~= greedy_ids(ps, s@));
        while pos < total
            invariant
                pos <= total == s@.len(),
                self.wf(),
                ps == self.pieces(),
                ids@ + greedy_ids(ps, s@.skip(pos as int)) == greedy_ids(ps, s@),
            decreases total - pos,
        {
            let ghost rest = s@.skip(pos as int);
            let ghost before = ids@;
            match self.longest_at(s, pos) {
                Some((k, id)) => {
                    ids.push(id);
                    assert(rest.skip(k as int) =~= s@.skip(pos + k));
                    assert(before + (seq![id] + greedy_ids(ps, s@.skip(pos + k))) =~= ids@
                        + greedy_ids(ps, s@.skip(pos + k)));
                    pos = pos + k;
                },
                None => {
                    let mut spelled: Vec<Part> = Vec::new();
                    self.push_byte_parts(&mut spelled, s[pos]);
                    let ghost parts = byte_parts(ps, encode_utf8(seq![rest[0]]));
                    assert(views(spelled@) =~= parts);
                    let mut i: usize = 0;
                    assert(ids@ =~= before + part_ids(parts).take(0));
                    while i < spelled.len()
                        invariant
                            i <= spelled@.len(),
                            views(spelled@) == parts,
                            ids@ == before + part_ids(parts).take(i as int),
                        decreases spelled.len() - i,
                    {
                        assert(views(spelled@)[i as int].1 == spelled@[i as int].id);
                        ids.push(spelled[i].id);
                        i = i + 1;
                        assert(ids@ =~= before + part_ids(parts).take(i as int));
                    }
                    assert(part_ids(parts).take(i as int) =~= part_ids(parts));
                    assert(rest.skip(1) =~= s@.skip(pos + 1));
                    assert(before + (part_ids(parts) + greedy_ids(ps, s@.skip(pos + 1))) =~= ids@
                        + greedy_ids(ps, s@.skip(pos + 1)));
                    pos = pos + 1;
                },
            }
        }
        assert(s@.skip(pos as int) =~= Seq::<char>::empty());
        assert(ids@ + Seq::<u32>::empty() =~= ids@);
        ids
    }

    /// The token ids of a text.
    pub fn encode(&self, text: &str) -> (ids: Vec<u32>)
        requires
            self.wf(),
        ensures
            ids@ == encoded(self.pieces(), self.scores(), text@),
    {
        let chars = chars_of(text);
        let t = trim(&chars);
        if t.len() == 0 {
            return Vec::new();
        }
        let marked_text = mark(&t);
        if self.scores.len() == 0 {
            return self.encode_greedy(&marked_text);
        }
        let parts = self.merge(self.start_parts(&marked_text));
        let ghost v = views(parts@);
        let mut ids: Vec<u32> = Vec::new();
        let mut i: usize = 0;
        while i < parts.len()
            invariant
                i <= parts@.len(),
                v == views(parts@),
                ids@ == part_ids(v).take(i as int),
            decreases parts.len() - i,
        {
            ids.push(parts[i].id);
            i = i + 1;
            assert(ids@ =~= part_ids(v).take(i as int));
        }
        assert(part_ids(v).take(i as int) =~= part_ids(v));
        ids
    }

    fn push_token_text(&self, out: &mut Vec<char>, id: u32)
        requires
            self.wf(),
        ensures
            final(out)@ == old(out)@ + token_text(self.pieces(), id),
    {
        let ghost start = out@;
        let at: usize = id as usize;
        if at < self.id_to_piece.len() {
            let piece = chars_of(self.id_to_piece[at].as_str());
            let mut i: usize = 0;
            assert(out@ =~= start + respaced(piece@).take(0));
            while i < piece.len()
                invariant
                    i <= piece@.len(),
                    out@ == start + respaced(piece@).take(i as int),
                decreases piece.len() - i,
            {
                let c: char = piece[i];
                out.push(
                    if c == SP_SPACE {
                        ' '
                    } else {
                        c
                    },
                );
                i = i + 1;
                assert(out@ =~= start + respaced(piece@).take(i as int));
            }
            assert(respaced(piece@).take(i as int) =~= respaced(piece@));
        } else {
            assert(start + Seq::<char>::empty() =~= start);
        }
    }

    /// The text of one token, with its boundaries as spaces.
    pub fn piece_text(&self, id: u32) -> (text: String)
        requires
            self.wf(),
        ensures
            text@ == token_text(self.pieces(), id),
    {
        let mut out: Vec<char> = Vec::new();
        self.push_token_text(&mut out, id);
        assert(out@ =~= token_text(self.pieces(), id));
        text_of(&out)
    }

    /// The text of a run of token ids.
    pub fn decode_ids(&self, ids: &[u32]) -> (text: String)
        requires
            self.wf(),
        ensures
            text@ == decoded(self.pieces(), ids@),
    {
        let mut out: Vec<char> = Vec::new();
        let mut i: usize = 0;
        assert(ids@.take(0) =~= Seq::<u32>::empty());
        while i < ids.len()
            invariant
                i <= ids@.len(),
                self.wf(),
                out@ == joined(self.pieces(), ids@.take(i as int)),
            decreases ids.len() - i,
        {
            self.push_token_text(&mut out, ids[i]);
            proof {
                assert(ids@.take(i + 1).drop_last() =~= ids@.take(i as int));
            }
            i = i + 1;
        }
        assert(ids@.take(i as int) =~= ids@);
        text_of(&without_leading_space(&out))
    }

    /// The bytes that each token writes, for a constrained decoder.
    pub fn token_bytes(&self) -> (map: Vec<(u32, Vec<u8>)>)
        requires
            self.wf(),
        ensures
            map@.len() == self.pieces().len(),
            forall|i: int|
                0 <= i < map@.len() ==> (#[trigger] map@[i]).0 == i && map@[i].1@ == encode_utf8(
                    token_text(self.pieces(), i as u32),
                ),
    {
        let total: usize = self.id_to_piece.len();
        let mut map: Vec<(u32, Vec<u8>)> = Vec::new();
        let mut i: usize = 0;
        while i < total
            invariant
                i <= total == self.pieces().len(),
                self.wf(),
                map@.len() == i,
                forall|k: int|
                    0 <= k < i ==> (#[trigger] map@[k]).0 == k && map@[k].1@ == encode_utf8(
                        token_text(self.pieces(), k as u32),
                    ),
            decreases total - i,
        {
            let id: u32 = i as u32;
            let mut text: Vec<char> = Vec::new();
            self.push_token_text(&mut text, id);
            assert(text@ =~= token_text(self.pieces(), id));
            map.push((id, bytes_of(&text)));
            i = i + 1;
        }
        map
    }
}

/// At most one pair is the pair to merge.
pub proof fn best_merge_is_unique(
    pieces: Seq<Seq<char>>,
    scores: Seq<u32>,
    parts: Seq<PartSpec>,
    i: int,
)
    requires
        best_merge(pieces, scores, parts, i),
    ensures
        forall|j: int| best_merge(pieces, scores, parts, j) ==> i == j,
{
}

/// The characters of a list of parts, one part after another.
pub open spec fn spelled(parts: Seq<PartSpec>) -> Seq<char>
    decreases parts.len(),
{
    if parts.len() == 0 {
        Seq::empty()
    } else {
        spelled(parts.drop_last()) + parts.last().0
    }
}

proof fn lemma_spelled_add(a: Seq<PartSpec>, b: Seq<PartSpec>)
    ensures
        spelled(a + b) == spelled(a) + spelled(b),
    decreases b.len(),
{
    if b.len() == 0 {
        assert(a + b =~= a);
        assert(spelled(a) + Seq::<char>::empty() =~= spelled(a));
    } else {
        lemma_spelled_add(a, b.drop_last());
        assert((a + b).drop_last() =~= a + b.drop_last());
        assert(spelled(a) + (spelled(b.drop_last()) + b.last().0) =~= (spelled(a) + spelled(
            b.drop_last(),
        )) + b.last().0);
    }
}

proof fn lemma_spelled_one(part: PartSpec)
    ensures
        spelled(seq![part]) == part.0,
{
    assert(spelled(seq![part].drop_last()) =~= Seq::<char>::empty());
    assert(Seq::<char>::empty() + part.0 =~= part.0);
}

/// One merge keeps the text.
proof fn lemma_merged_at_keeps_text(pieces: Seq<Seq<char>>, parts: Seq<PartSpec>, i: int)
    requires
        0 <= i < parts.len() - 1,
    ensures
        spelled(merged_at(pieces, parts, i)) == spelled(parts),
{
    let a = parts.take(i);
    let x = parts[i];
    let y = parts[i + 1];
    let b = parts.skip(i + 2);
    let text = x.0 + y.0;
    let z = (text, id_or_unknown(pieces, text));
    assert(parts =~= (a + seq![x]) + (seq![y] + b));
    assert(merged_at(pieces, parts, i) =~= a + (seq![z] + b));
    lemma_spelled_add(a + seq![x], seq![y] + b);
    lemma_spelled_add(a, seq![x]);
    lemma_spelled_add(seq![y], b);
    lemma_spelled_add(a, seq![z] + b);
    lemma_spelled_add(seq![z], b);
    lemma_spelled_one(x);
    lemma_spelled_one(y);
    lemma_spelled_one(z);
    assert((spelled(a) + x.0) + (y.0 + spelled(b)) =~= spelled(a) + (text + spelled(b)));
}

/// Merging never changes the text, only where it is cut.
pub proof fn merging_keeps_the_text(
    pieces: Seq<Seq<char>>,
    scores: Seq<u32>,
    parts: Seq<PartSpec>,
)
    ensures
        spelled(merge_all(pieces, scores, parts)) == spelled(parts),
    decreases parts.len(),
{
    if exists|i: int| best_merge(pieces, scores, parts, i) {
        let i = choose|i: int| best_merge(pieces, scores, parts, i);
        lemma_merged_at_keeps_text(pieces, parts, i);
        merging_keeps_the_text(pieces, scores, merged_at(pieces, parts, i));
    }
}

/// When merging stops, no two neighbours form a piece with a score to merge
/// by.
pub proof fn merging_leaves_nothing_to_merge(
    pieces: Seq<Seq<char>>,
    scores: Seq<u32>,
    parts: Seq<PartSpec>,
    i: int,
)
    requires
        0 <= i < merge_all(pieces, scores, parts).len() - 1,
    ensures
        merge_rank(pieces, scores, merge_all(pieces, scores, parts), i) is None,
    decreases parts.len(),
{
    if exists|j: int| best_merge(pieces, scores, parts, j) {
        let j = choose|j: int| best_merge(pieces, scores, parts, j);
        merging_leaves_nothing_to_merge(pieces, scores, merged_at(pieces, parts, j), i);
    } else if merge_rank(pieces, scores, parts, i) is Some {
        lemma_a_best_merge_exists(pieces, scores, parts, parts.len() - 1, i);
    }
}

/// Among pairs before `n`, the first of the highest rank.
proof fn lemma_a_best_merge_exists(
    pieces: Seq<Seq<char>>,
    scores: Seq<u32>,
    parts: Seq<PartSpec>,
    n: int,
    some: int,
) -> (best: int)
    requires
        0 <= some < n <= parts.len() - 1,
        merge_rank(pieces, scores, parts, some) is Some,
    ensures
        0 <= best < n,
        merge_rank(pieces, scores, parts, best) is Some,
        forall|j: int|
            #![trigger merge_rank(pieces, scores, parts, j)]
            0 <= j < n && merge_rank(pieces, scores, parts, j) is Some ==> merge_rank(
                pieces,
                scores,
                parts,
                j,
            )->0 <= merge_rank(pieces, scores, parts, best)->0 && (j < best ==> merge_rank(
                pieces,
                scores,
                parts,
                j,
            )->0 < merge_rank(pieces, scores, parts, best)->0),
        n == parts.len() - 1 ==> best_merge(pieces, scores, parts, best),
    decreases n,
{
    let last = merge_rank(pieces, scores, parts, n - 1);
    if exists|k: int|
        0 <= k < n - 1 && #[trigger] merge_rank(pieces, scores, parts, k) is Some {
        let k = choose|k: int|
            0 <= k < n - 1 && #[trigger] merge_rank(pieces, scores, parts, k) is Some;
        let before = lemma_a_best_merge_exists(pieces, scores, parts, n - 1, k);
        if last is Some && last->0 > merge_rank(pieces, scores, parts, before)->0 {
            n - 1
        } else {
            before
        }
    } else {
        n - 1
    }
}

/// Every part's id is the id of its text.
pub open spec fn named(pieces: Seq<Seq<char>>, parts: Seq<PartSpec>) -> bool {
    forall|i: int|
        0 <= i < parts.len() ==> (#[trigger] parts[i]).1 < pieces.len()
            && pieces[parts[i].1 as int] == parts[i].0
}

proof fn lemma_merging_keeps_names(
    pieces: Seq<Seq<char>>,
    scores: Seq<u32>,
    parts: Seq<PartSpec>,
)
    requires
        pieces.len() <= u32::MAX,
        named(pieces, parts),
    ensures
        named(pieces, merge_all(pieces, scores, parts)),
    decreases parts.len(),
{
    if exists|i: int| best_merge(pieces, scores, parts, i) {
        let i = choose|i: int| best_merge(pieces, scores, parts, i);
        let next = merged_at(pieces, parts, i);
        let text = parts[i].0 + parts[i + 1].0;
        assert(merge_rank(pieces, scores, parts, i) is Some);
        lemma_id_of(pieces, text);
        assert forall|k: int| 0 <= k < next.len() implies (#[trigger] next[k]).1 < pieces.len()
            && pieces[next[k].1 as int] == next[k].0 by {
            if k < i {
                assert(next[k] == parts[k]);
            } else if k > i {
                assert(next[k] == parts[k + 1]);
            } else {
                assert(next[k] == (text, id_or_unknown(pieces, text)));
            }
        }
        lemma_merging_keeps_names(pieces, scores, next);
    }
}

/// Every character of a text is a piece.
pub open spec fn covers(pieces: Seq<Seq<char>>, s: Seq<char>) -> bool {
    forall|i: int| 0 <= i < s.len() ==> id_of(pieces, seq![#[trigger] s[i]]) is Some
}

proof fn lemma_initial_parts_spell(pieces: Seq<Seq<char>>, s: Seq<char>)
    requires
        pieces.len() <= u32::MAX,
        covers(pieces, s),
    ensures
        spelled(initial_parts(pieces, s)) == s,
        named(pieces, initial_parts(pieces, s)),
    decreases s.len(),
{
    if s.len() > 0 {
        let c = s.last();
        let before = s.drop_last();
        assert(s[s.len() - 1] == c);
        assert forall|i: int| 0 <= i < before.len() implies id_of(
            pieces,
            seq![#[trigger] before[i]],
        ) is Some by {
            assert(before[i] == s[i]);
        }
        lemma_initial_parts_spell(pieces, before);
        lemma_id_of(pieces, seq![c]);
        let one = (seq![c], id_or_unknown(pieces, seq![c]));
        assert(char_parts(pieces, c) =~= seq![one]);
        lemma_spelled_add(initial_parts(pieces, before), seq![one]);
        lemma_spelled_one(one);
        assert(before + seq![c] =~= s);
    }
}

proof fn lemma_respaced_add(a: Seq<char>, b: Seq<char>)
    ensures
        respaced(a + b) == respaced(a) + respaced(b),
{
    assert(respaced(a + b) =~= respaced(a) + respaced(b));
}

proof fn lemma_joined_is_spelled(pieces: Seq<Seq<char>>, parts: Seq<PartSpec>)
    requires
        named(pieces, parts),
    ensures
        joined(pieces, part_ids(parts)) == respaced(spelled(parts)),
    decreases parts.len(),
{
    if parts.len() == 0 {
        assert(respaced(Seq::<char>::empty()) =~= Seq::<char>::empty());
    } else {
        let before = parts.drop_last();
        assert(forall|i: int| 0 <= i < before.len() ==> before[i] == parts[i]);
        lemma_joined_is_spelled(pieces, before);
        assert(part_ids(parts).drop_last() =~= part_ids(before));
        assert(parts[parts.len() - 1] == parts.last());
        lemma_respaced_add(spelled(before), parts.last().0);
    }
}

proof fn lemma_joined_first(pieces: Seq<Seq<char>>, id: u32, ids: Seq<u32>)
    ensures
        joined(pieces, seq![id] + ids) == token_text(pieces, id) + joined(pieces, ids),
    decreases ids.len(),
{
    let all = seq![id] + ids;
    if ids.len() == 0 {
        assert(joined(pieces, all.drop_last()) =~= Seq::<char>::empty());
        assert(joined(pieces, ids) =~= Seq::<char>::empty());
        assert(Seq::<char>::empty() + token_text(pieces, id) =~= token_text(pieces, id)
            + Seq::<char>::empty());
    } else {
        lemma_joined_first(pieces, id, ids.drop_last());
        assert(all.drop_last() =~= seq![id] + ids.drop_last());
        assert(all.last() == ids.last());
        assert(token_text(pieces, id) + (joined(pieces, ids.drop_last()) + token_text(
            pieces,
            ids.last(),
        )) =~= (token_text(pieces, id) + joined(pieces, ids.drop_last())) + token_text(
            pieces,
            ids.last(),
        ));
    }
}

proof fn lemma_longest(pieces: Seq<Seq<char>>, s: Seq<char>, k: int)
    requires
        0 <= k <= s.len(),
    ensures
        match longest(pieces, s, k) {
            Some(n) => 0 < n <= k && id_of(pieces, s.take(n)) is Some,
            None => forall|n: int| 0 < n <= k ==> id_of(pieces, #[trigger] s.take(n)) is None,
        },
    decreases k,
{
    if k > 0 {
        lemma_longest(pieces, s, k - 1);
    }
}

proof fn lemma_greedy_spells(pieces: Seq<Seq<char>>, s: Seq<char>)
    requires
        pieces.len() <= u32::MAX,
        covers(pieces, s),
    ensures
        joined(pieces, greedy_ids(pieces, s)) == respaced(s),
    decreases s.len(),
{
    if s.len() == 0 {
        assert(respaced(s) =~= Seq::<char>::empty());
    } else {
        lemma_longest(pieces, s, s.len() as int);
        assert(s.take(1) =~= seq![s[0]]);
        assert(id_of(pieces, s.take(1)) is Some);
        let k = longest(pieces, s, s.len() as int)->0;
        let rest = s.skip(k);
        assert forall|i: int| 0 <= i < rest.len() implies id_of(
            pieces,
            seq![#[trigger] rest[i]],
        ) is Some by {
            assert(rest[i] == s[i + k]);
        }
        lemma_greedy_spells(pieces, rest);
        lemma_id_of(pieces, s.take(k));
        let id = id_or_unknown(pieces, s.take(k));
        lemma_joined_first(pieces, id, greedy_ids(pieces, rest));
        lemma_respaced_add(s.take(k), rest);
        assert(s.take(k) + rest =~= s);
    }
}

/// Decoding undoes encoding, up to the white space that marking collapses,
/// whenever every character of the marked text is a piece.
pub proof fn decoding_undoes_encoding(
    pieces: Seq<Seq<char>>,
    scores: Seq<u32>,
    text: Seq<char>,
)
    requires
        pieces.len() <= u32::MAX,
        covers(pieces, marked(trimmed(text))),
    ensures
        decoded(pieces, encoded(pieces, scores, text)) == trim_start(
            respaced(marked(trimmed(text))),
        ),
{
    let t = trimmed(text);
    let m = marked(t);
    if t.len() == 0 {
        assert(respaced(m) =~= seq![' ']);
        assert(past_space(respaced(m), 1) == 1);
        assert(past_space(respaced(m), 0) == 1);
        assert(trim_start(respaced(m)) =~= Seq::<char>::empty());
        assert(joined(pieces, Seq::<u32>::empty()) =~= Seq::<char>::empty());
        assert(trim_start(Seq::<char>::empty()) =~= Seq::<char>::empty());
    } else if scores.len() == 0 {
        lemma_greedy_spells(pieces, m);
    } else {
        let start = initial_parts(pieces, m);
        lemma_initial_parts_spell(pieces, m);
        merging_keeps_the_text(pieces, scores, start);
        lemma_merging_keeps_names(pieces, scores, start);
        lemma_joined_is_spelled(pieces, merge_all(pieces, scores, start));
    }
}

/// Text in which single spaces, and no other white space, separate the words.
pub open spec fn single_spaced(t: Seq<char>) -> bool {
    &&& forall|i: int|
        0 <= i < t.len() ==> (white_space(#[trigger] t[i]) ==> t[i] == ' ') && t[i] != SP_SPACE
    &&& forall|i: int|
        0 < i < t.len() ==> !(white_space(#[trigger] t[i]) && white_space(t[i - 1]))
}

proof fn lemma_marked_plain(t: Seq<char>)
    requires
        single_spaced(t),
    ensures
        respaced(marked(t)) == seq![' '] + t,
    decreases t.len(),
{
    if t.len() == 0 {
        assert(respaced(marked(t)) =~= seq![' '] + t);
    } else {
        let before = t.drop_last();
        assert forall|i: int| 0 <= i < before.len() implies (white_space(#[trigger] before[i])
            ==> before[i] == ' ') && before[i] != SP_SPACE by {
            assert(before[i] == t[i]);
        }
        assert forall|i: int| 0 < i < before.len() implies !(white_space(#[trigger] before[i])
            && white_space(before[i - 1])) by {
            assert(before[i] == t[i]);
        }
        lemma_marked_plain(before);
        let c = t.last();
        assert(t[t.len() - 1] == c);
        assert(!white_space(SP_SPACE));
        assert(marked(t) == marked(before).push(
            if white_space(c) {
                SP_SPACE
            } else {
                c
            },
        ));
        assert(respaced(marked(t)) =~= respaced(marked(before)).push(c));
        assert((seq![' '] + before).push(c) =~= seq![' '] + t);
    }
}

/// Single-spaced text without white space at its ends comes back as it was.
pub proof fn plain_text_survives_encoding(
    pieces: Seq<Seq<char>>,
    scores: Seq<u32>,
    text: Seq<char>,
)
    requires
        pieces.len() <= u32::MAX,
        single_spaced(text),
        text.len() > 0 ==> !white_space(text[0]) && !white_space(text.last()),
        covers(pieces, marked(text)),
    ensures
        decoded(pieces, encoded(pieces, scores, text)) == text,
{
    trimming_keeps_trimmed_text(text);
    decoding_undoes_encoding(pieces, scores, text);
    lemma_marked_plain(text);
    let spaced = seq![' '] + text;
    assert(spaced[0] == ' ');
    if text.len() > 0 {
        assert(spaced[1] == text[0]);
    }
    assert(past_space(spaced, 1) == 1);
    assert(past_space(spaced, 0) == 1);
    assert(trim_start(spaced) =~= text);
}

proof fn lemma_marked_add(x: Seq<char>, y: Seq<char>, b: Seq<char>)
    requires
        marked(x) == marked(y),
        x.len() > 0 && white_space(x.last()),
        y.len() > 0 && white_space(y.last()),
    ensures
        marked(x + b) == marked(y + b),
    decreases b.len(),
{
    if b.len() == 0 {
        assert(x + b =~= x);
        assert(y + b =~= y);
    } else {
        let t = b.drop_last();
        lemma_marked_add(x, y, t);
        let (p, q) = (x + b, y + b);
        assert(p.drop_last() =~= x + t);
        assert(q.drop_last() =~= y + t);
        assert(p.last() == b.last() && q.last() == b.last());
        if t.len() > 0 {
            assert(p[p.len() - 2] == t.last() && q[q.len() - 2] == t.last());
        } else {
            assert(p[p.len() - 2] == x.last() && q[q.len() - 2] == y.last());
        }
    }
}

proof fn lemma_marked_run(a: Seq<char>, w: Seq<char>)
    requires
        a.len() > 0,
        !white_space(a.last()),
        w.len() > 0,
        forall|i: int| 0 <= i < w.len() ==> white_space(#[trigger] w[i]),
    ensures
        marked(a + w) == marked(a).push(SP_SPACE),
    decreases w.len(),
{
    let t = w.drop_last();
    let p = a + w;
    assert(p.drop_last() =~= a + t);
    assert(w[w.len() - 1] == w.last());
    assert(p.last() == w.last());
    if t.len() > 0 {
        assert forall|i: int| 0 <= i < t.len() implies white_space(#[trigger] t[i]) by {
            assert(t[i] == w[i]);
        }
        lemma_marked_run(a, t);
        assert(t[t.len() - 1] == w[t.len() - 1]);
        assert(p[p.len() - 2] == t.last());
    } else {
        assert(a + t =~= a);
        assert(p[p.len() - 2] == a.last());
    }
}

/// A run of white space between words, whatever it is made of, counts as one
/// space: the ids are the same.
pub proof fn any_white_space_is_one_space(
    pieces: Seq<Seq<char>>,
    scores: Seq<u32>,
    a: Seq<char>,
    w: Seq<char>,
    b: Seq<char>,
)
    requires
        a.len() > 0,
        b.len() > 0,
        w.len() > 0,
        !white_space(a[0]) && !white_space(a.last()),
        !white_space(b[0]) && !white_space(b.last()),
        forall|i: int| 0 <= i < w.len() ==> white_space(#[trigger] w[i]),
    ensures
        encoded(pieces, scores, a + w + b) == encoded(pieces, scores, a + seq![' '] + b),
{
    let one = seq![' '];
    lemma_marked_run(a, w);
    lemma_marked_run(a, one);
    assert(w[w.len() - 1] == w.last());
    lemma_marked_add(a + w, a + one, b);
    trimming_keeps_trimmed_text(a + w + b);
    trimming_keeps_trimmed_text(a + one + b);
}

/// White space around a text does not count.
pub proof fn white_space_around_does_not_count(
    pieces: Seq<Seq<char>>,
    scores: Seq<u32>,
    left: Seq<char>,
    text: Seq<char>,
    right: Seq<char>,
)
    requires
        text.len() > 0 ==> !white_space(text[0]) && !white_space(text.last()),
        forall|i: int| 0 <= i < left.len() ==> white_space(#[trigger] left[i]),
        forall|i: int| 0 <= i < right.len() ==> white_space(#[trigger] right[i]),
    ensures
        encoded(pieces, scores, left + text + right) == encoded(pieces, scores, text),
{
    trimming_takes_off_what_surrounds(left, text, right);
    trimming_keeps_trimmed_text(text);
}

/// Words with gaps between them.
pub open spec fn spaced(words: Seq<Seq<char>>, gaps: Seq<Seq<char>>) -> Seq<char>
    decreases words.len(),
{
    if words.len() == 0 {
        Seq::empty()
    } else if words.len() == 1 {
        words[0]
    } else {
        spaced(words.drop_last(), gaps.drop_last()) + gaps.last() + words.last()
    }
}

/// Words with `between` after each but the last.
pub open spec fn with_between(words: Seq<Seq<char>>, between: char) -> Seq<char>
    decreases words.len(),
{
    if words.len() == 0 {
        Seq::empty()
    } else if words.len() == 1 {
        words[0]
    } else {
        with_between(words.drop_last(), between) + seq![between] + words.last()
    }
}

/// Words: none is empty, and none holds white space or a boundary.
pub open spec fn are_words(words: Seq<Seq<char>>) -> bool {
    forall|i: int, k: int|
        #![trigger words[i][k]]
        0 <= i < words.len() && 0 <= k < words[i].len() ==> !white_space(words[i][k]) && words[i][k]
            != '\u{2581}'
}

/// No gap is empty, and all of each is white space.
pub open spec fn are_gaps(gaps: Seq<Seq<char>>) -> bool {
    &&& forall|i: int| 0 <= i < gaps.len() ==> (#[trigger] gaps[i]).len() > 0
    &&& forall|i: int, k: int|
        #![trigger gaps[i][k]]
        0 <= i < gaps.len() && 0 <= k < gaps[i].len() ==> white_space(gaps[i][k])
}

proof fn lemma_words_before(words: Seq<Seq<char>>)
    requires
        are_words(words),
        words.len() > 0,
        forall|i: int| 0 <= i < words.len() ==> (#[trigger] words[i]).len() > 0,
    ensures
        are_words(words.drop_last()),
        forall|i: int| 0 <= i < words.drop_last().len() ==> (#[trigger] words.drop_last()[i]).len()
            > 0,
{
    let before = words.drop_last();
    assert forall|i: int, k: int|
        #![trigger before[i][k]]
        0 <= i < before.len() && 0 <= k < before[i].len() implies !white_space(before[i][k])
        && before[i][k] != '\u{2581}' by {
        assert(before[i] == words[i]);
        assert(words[i][k] == before[i][k]);
    }
    assert forall|i: int| 0 <= i < before.len() implies (#[trigger] before[i]).len() > 0 by {
        assert(before[i] == words[i]);
    }
}

/// Text without white space is marked by one boundary before it; behind other
/// text it is copied.
proof fn lemma_marked_word(a: Seq<char>, word: Seq<char>)
    requires
        forall|k: int| 0 <= k < word.len() ==> !white_space(#[trigger] word[k]),
    ensures
        marked(a + word) == marked(a) + word,
    decreases word.len(),
{
    if word.len() == 0 {
        assert(a + word =~= a);
        assert(marked(a) + word =~= marked(a));
    } else {
        let t = word.drop_last();
        assert forall|k: int| 0 <= k < t.len() implies !white_space(#[trigger] t[k]) by {
            assert(t[k] == word[k]);
        }
        lemma_marked_word(a, t);
        assert(word[word.len() - 1] == word.last());
        assert((a + word).drop_last() =~= a + t);
        assert((a + word).last() == word.last());
        assert(marked(a) + word =~= (marked(a) + t).push(word.last()));
    }
}

/// Marked text is a boundary before each word, however wide the gaps are.
pub proof fn marking_sets_a_boundary_before_each_word(words: Seq<Seq<char>>, gaps: Seq<Seq<char>>)
    requires
        words.len() > 0,
        gaps.len() == words.len() - 1,
        are_words(words),
        forall|i: int| 0 <= i < words.len() ==> (#[trigger] words[i]).len() > 0,
        are_gaps(gaps),
    ensures
        marked(spaced(words, gaps)) == seq!['\u{2581}'] + with_between(words, '\u{2581}'),
        spaced(words, gaps).len() > 0,
        !white_space(spaced(words, gaps)[0]),
        !white_space(spaced(words, gaps).last()),
    decreases words.len(),
{
    let last = words.last();
    let n = words.len() - 1;
    assert(words[n] == last);
    assert forall|k: int| 0 <= k < last.len() implies !white_space(#[trigger] last[k]) by {
        assert(words[n][k] == last[k]);
    }
    if words.len() == 1 {
        lemma_marked_word(Seq::empty(), last);
        assert(Seq::<char>::empty() + last =~= last);
    } else {
        let w = words.drop_last();
        let g = gaps.drop_last();
        let gap = gaps.last();
        lemma_words_before(words);
        assert(are_gaps(g)) by {
            assert forall|i: int| 0 <= i < g.len() implies (#[trigger] g[i]).len() > 0 by {
                assert(g[i] == gaps[i]);
            }
            assert forall|i: int, k: int|
                #![trigger g[i][k]]
                0 <= i < g.len() && 0 <= k < g[i].len() implies white_space(g[i][k]) by {
                assert(g[i] == gaps[i]);
                assert(gaps[i][k] == g[i][k]);
            }
        }
        marking_sets_a_boundary_before_each_word(w, g);
        assert(gaps[gaps.len() - 1] == gap);
        assert forall|i: int| 0 <= i < gap.len() implies white_space(#[trigger] gap[i]) by {
            assert(gaps[gaps.len() - 1][i] == gap[i]);
        }
        let before = spaced(w, g);
        lemma_marked_run(before, gap);
        lemma_marked_word(before + gap, last);
        assert(marked(before).push(SP_SPACE) + last =~= seq!['\u{2581}'] + with_between(
            words,
            '\u{2581}',
        ));
        assert((before + gap + last).last() == last.last());
        assert(last[last.len() - 1] == last.last());
    }
}

proof fn lemma_respaced_words(words: Seq<Seq<char>>)
    requires
        words.len() > 0,
        are_words(words),
        forall|i: int| 0 <= i < words.len() ==> (#[trigger] words[i]).len() > 0,
    ensures
        respaced(with_between(words, '\u{2581}')) == with_between(words, ' '),
        with_between(words, ' ').len() > 0,
        !white_space(with_between(words, ' ')[0]),
    decreases words.len(),
{
    let last = words.last();
    let n = words.len() - 1;
    assert(words[n] == last);
    assert(respaced(last) =~= last) by {
        assert forall|k: int| 0 <= k < last.len() implies last[k] != SP_SPACE by {
            assert(words[n][k] == last[k]);
        }
    }
    assert(words[0].len() > 0);
    assert(!white_space(words[0][0]));
    if words.len() > 1 {
        let w = words.drop_last();
        lemma_words_before(words);
        lemma_respaced_words(w);
        let b = with_between(w, '\u{2581}');
        lemma_respaced_add(b + seq!['\u{2581}'], last);
        lemma_respaced_add(b, seq!['\u{2581}']);
        assert(respaced(seq!['\u{2581}']) =~= seq![' ']);
        assert(words[0] == w[0]);
    }
}

/// Encoding and decoding gives back the words, with single spaces between
/// them: whatever white space stood around and between them, and wherever the
/// vocabulary cuts them, as long as it has every character by itself.
pub proof fn words_survive_encoding(
    pieces: Seq<Seq<char>>,
    scores: Seq<u32>,
    left: Seq<char>,
    words: Seq<Seq<char>>,
    gaps: Seq<Seq<char>>,
    right: Seq<char>,
)
    requires
        pieces.len() <= u32::MAX,
        words.len() > 0,
        gaps.len() == words.len() - 1,
        are_words(words),
        forall|i: int| 0 <= i < words.len() ==> (#[trigger] words[i]).len() > 0,
        are_gaps(gaps),
        forall|i: int| 0 <= i < left.len() ==> white_space(#[trigger] left[i]),
        forall|i: int| 0 <= i < right.len() ==> white_space(#[trigger] right[i]),
        pieces.contains(seq!['\u{2581}']),
        forall|i: int, k: int|
            #![trigger words[i][k]]
            0 <= i < words.len() && 0 <= k < words[i].len() ==> pieces.contains(seq![words[i][k]]),
    ensures
        decoded(pieces, encoded(pieces, scores, left + spaced(words, gaps) + right))
            == with_between(words, ' '),
{
    let text = spaced(words, gaps);
    marking_sets_a_boundary_before_each_word(words, gaps);
    white_space_around_does_not_count(pieces, scores, left, text, right);
    trimming_keeps_trimmed_text(text);
    let inner = with_between(words, '\u{2581}');
    let m = seq!['\u{2581}'] + inner;
    lemma_covers_words(pieces, words);
    lemma_id_of(pieces, seq!['\u{2581}']);
    assert(covers(pieces, m)) by {
        assert forall|i: int| 0 <= i < m.len() implies id_of(
            pieces,
            seq![#[trigger] m[i]],
        ) is Some by {
            if i > 0 {
                assert(m[i] == inner[i - 1]);
            }
        }
    }
    decoding_undoes_encoding(pieces, scores, text);
    lemma_respaced_words(words);
    lemma_respaced_add(seq!['\u{2581}'], inner);
    assert(respaced(seq!['\u{2581}']) =~= seq![' ']);
    let out = with_between(words, ' ');
    let spaced_out = seq![' '] + out;
    assert(spaced_out[0] == ' ' && spaced_out[1] == out[0]);
    assert(past_space(spaced_out, 1) == 1);
    assert(past_space(spaced_out, 0) == 1);
    assert(trim_start(spaced_out) =~= out);
}

proof fn lemma_covers_words(pieces: Seq<Seq<char>>, words: Seq<Seq<char>>)
    requires
        words.len() > 0,
        pieces.contains(seq!['\u{2581}']),
        forall|i: int, k: int|
            #![trigger words[i][k]]
            0 <= i < words.len() && 0 <= k < words[i].len() ==> pieces.contains(seq![words[i][k]]),
    ensures
        covers(pieces, with_between(words, '\u{2581}')),
    decreases words.len(),
{
    let all = with_between(words, '\u{2581}');
    let n = words.len() - 1;
    let last = words.last();
    assert(words[n] == last);
    let before = if words.len() == 1 {
        Seq::empty()
    } else {
        with_between(words.drop_last(), '\u{2581}') + seq!['\u{2581}']
    };
    assert(all =~= before + last);
    if words.len() > 1 {
        let w = words.drop_last();
        assert forall|i: int, k: int|
            #![trigger w[i][k]]
            0 <= i < w.len() && 0 <= k < w[i].len() implies pieces.contains(seq![w[i][k]]) by {
            assert(w[i] == words[i]);
            assert(words[i][k] == w[i][k]);
        }
        lemma_covers_words(pieces, w);
    }
    assert forall|i: int| 0 <= i < all.len() implies id_of(
        pieces,
        seq![#[trigger] all[i]],
    ) is Some by {
        lemma_id_of(pieces, seq![all[i]]);
        if i >= before.len() {
            assert(all[i] == words[n][i - before.len()]);
        } else if i == before.len() - 1 {
            assert(all[i] == '\u{2581}');
        } else {
            assert(all[i] == with_between(words.drop_last(), '\u{2581}')[i]);
        }
    }
}

/// `id` is the id of `piece`: the last place at which it stands.
pub open spec fn goes_by(pieces: Seq<Seq<char>>, piece: Seq<char>, id: int) -> bool {
    &&& 0 <= id < pieces.len()
    &&& pieces[id] == piece
    &&& forall|j: int| id < j < pieces.len() ==> #[trigger] pieces[j] != piece
}

/// The id of a piece is the last place at which it stands in the vocabulary.
pub proof fn a_piece_goes_by_its_last_place(pieces: Seq<Seq<char>>, piece: Seq<char>)
    ensures
        match id_of(pieces, piece) {
            Some(id) => goes_by(pieces, piece, id),
            None => forall|j: int| 0 <= j < pieces.len() ==> #[trigger] pieces[j] != piece,
        },
    decreases pieces.len(),
{
    if pieces.len() > 0 && pieces.last() != piece {
        let before = pieces.drop_last();
        a_piece_goes_by_its_last_place(before, piece);
        assert forall|j: int|
            0 <= j < pieces.len() && (match id_of(before, piece) {
                Some(id) => id < j,
                None => true,
            }) implies #[trigger] pieces[j] != piece by {
            if j < before.len() {
                assert(before[j] == pieces[j]);
            }
        }
        if let Some(id) = id_of(before, piece) {
            assert(before[id] == pieces[id]);
        }
    }
}

/// Two neighbouring parts form a piece that may be merged, scored `rank`.
pub open spec fn may_merge(
    pieces: Seq<Seq<char>>,
    scores: Seq<u32>,
    cut: Seq<Seq<char>>,
    i: int,
    rank: int,
) -> bool {
    exists|id: int|
        #![trigger scores[id]]
        goes_by(pieces, cut[i] + cut[i + 1], id) && !nan(scores[id]) && !minus_infinity(scores[id])
            && rank == numeric(scores[id])
}

/// Parts `i` and `i + 1` form the piece of the highest score of all that
/// neighbours form, and no pair before them forms one as high.
pub open spec fn merges_first(
    pieces: Seq<Seq<char>>,
    scores: Seq<u32>,
    cut: Seq<Seq<char>>,
    i: int,
) -> bool {
    &&& 0 <= i < cut.len() - 1
    &&& exists|rank: int| #[trigger]
        may_merge(pieces, scores, cut, i, rank) && forall|j: int, other: int|
            0 <= j < cut.len() - 1 && #[trigger] may_merge(pieces, scores, cut, j, other) ==> other
                <= rank && (j < i ==> other < rank)
}

/// No two neighbours form a piece that may be merged.
pub open spec fn merged_out(
    pieces: Seq<Seq<char>>,
    scores: Seq<u32>,
    cut: Seq<Seq<char>>,
) -> bool {
    forall|j: int, rank: int|
        0 <= j < cut.len() - 1 ==> !#[trigger] may_merge(pieces, scores, cut, j, rank)
}

/// The texts of a list of parts.
spec fn part_texts(parts: Seq<PartSpec>) -> Seq<Seq<char>> {
    Seq::new(parts.len(), |i: int| parts[i].0)
}

proof fn lemma_may_merge(
    pieces: Seq<Seq<char>>,
    scores: Seq<u32>,
    parts: Seq<PartSpec>,
    i: int,
    rank: int,
)
    requires
        0 <= i < parts.len() - 1,
    ensures
        may_merge(pieces, scores, part_texts(parts), i, rank) <==> merge_rank(
            pieces,
            scores,
            parts,
            i,
        ) == Some(rank),
{
    let text = parts[i].0 + parts[i + 1].0;
    let cut = part_texts(parts);
    assert(cut[i] + cut[i + 1] == text);
    a_piece_goes_by_its_last_place(pieces, text);
    if may_merge(pieces, scores, cut, i, rank) {
        let id = choose|id: int|
            #![trigger scores[id]]
            goes_by(pieces, cut[i] + cut[i + 1], id) && !nan(scores[id]) && !minus_infinity(
                scores[id],
            ) && rank == numeric(scores[id]);
        let at = id_of(pieces, text);
        assert(at is Some);
        if at->0 < id {
            assert(pieces[id] != text);
        }
        if id < at->0 {
            assert(pieces[at->0] != text);
        }
    }
    if merge_rank(pieces, scores, parts, i) == Some(rank) {
        let id = id_of(pieces, text)->0;
        assert(scores[id] == scores[id]);
    }
}

proof fn lemma_merge_trace(
    pieces: Seq<Seq<char>>,
    scores: Seq<u32>,
    parts: Seq<PartSpec>,
    cuts: Seq<Seq<Seq<char>>>,
    places: Seq<int>,
    k: int,
)
    requires
        pieces.len() <= u32::MAX,
        named(pieces, parts),
        cuts.len() == places.len() + 1,
        0 <= k < cuts.len(),
        part_texts(parts) == cuts[k],
        forall|j: int|
            #![trigger places[j]]
            0 <= j < places.len() ==> merges_first(pieces, scores, cuts[j], places[j]) && cuts[j
                + 1] == cuts[j].update(
                places[j],
                cuts[j][places[j]] + cuts[j][places[j] + 1],
            ).remove(places[j] + 1),
        merged_out(pieces, scores, cuts.last()),
    ensures
        part_texts(merge_all(pieces, scores, parts)) == cuts.last(),
    decreases cuts.len() - k,
{
    let cut = cuts[k];
    if k == cuts.len() - 1 {
        assert(!(exists|i: int| best_merge(pieces, scores, parts, i))) by {
            if exists|i: int| best_merge(pieces, scores, parts, i) {
                let i = choose|i: int| best_merge(pieces, scores, parts, i);
                let rank = merge_rank(pieces, scores, parts, i)->0;
                lemma_may_merge(pieces, scores, parts, i, rank);
                assert(may_merge(pieces, scores, cuts.last(), i, rank));
            }
        }
    } else {
        let i = places[k];
        let rank = choose|rank: int| #[trigger]
            may_merge(pieces, scores, cut, i, rank) && forall|j: int, other: int|
                0 <= j < cut.len() - 1 && #[trigger] may_merge(pieces, scores, cut, j, other)
                    ==> other <= rank && (j < i ==> other < rank);
        lemma_may_merge(pieces, scores, parts, i, rank);
        assert forall|j: int|
            #![trigger merge_rank(pieces, scores, parts, j)]
            0 <= j < parts.len() - 1 && merge_rank(pieces, scores, parts, j) is Some implies
            merge_rank(pieces, scores, parts, j)->0 <= rank && (j < i ==> merge_rank(
            pieces,
            scores,
            parts,
            j,
        )->0 < rank) by {
            let other = merge_rank(pieces, scores, parts, j)->0;
            lemma_may_merge(pieces, scores, parts, j, other);
            assert(may_merge(pieces, scores, cut, j, other));
        }
        assert(best_merge(pieces, scores, parts, i));
        let c = choose|c: int| best_merge(pieces, scores, parts, c);
        best_merge_is_unique(pieces, scores, parts, i);
        assert(c == i);
        let next = merged_at(pieces, parts, i);
        let text = parts[i].0 + parts[i + 1].0;
        lemma_id_of(pieces, text);
        assert(part_texts(next) =~= cuts[k + 1]);
        assert(named(pieces, next)) by {
            assert forall|n: int| 0 <= n < next.len() implies (#[trigger] next[n]).1 < pieces.len()
                && pieces[next[n].1 as int] == next[n].0 by {
                if n < i {
                    assert(next[n] == parts[n]);
                } else if n > i {
                    assert(next[n] == parts[n + 1]);
                } else {
                    assert(next[n] == (text, id_or_unknown(pieces, text)));
                }
            }
        }
        lemma_merge_trace(pieces, scores, next, cuts, places, k + 1);
    }
}

/// Encoding with scores is merging, step by step. `cuts` is how the text is cut
/// at each step: first into its characters, with a boundary before each word,
/// and then each time with the pair merged that forms the piece of the highest
/// score, the first of several, until no pair forms one. The ids are those of
/// the last cut.
pub proof fn encoding_merges_the_best_pair_first(
    pieces: Seq<Seq<char>>,
    scores: Seq<u32>,
    words: Seq<Seq<char>>,
    gaps: Seq<Seq<char>>,
    cuts: Seq<Seq<Seq<char>>>,
    places: Seq<int>,
)
    requires
        pieces.len() <= u32::MAX,
        scores.len() > 0,
        words.len() > 0,
        gaps.len() == words.len() - 1,
        are_words(words),
        forall|i: int| 0 <= i < words.len() ==> (#[trigger] words[i]).len() > 0,
        are_gaps(gaps),
        pieces.contains(seq!['\u{2581}']),
        forall|i: int, k: int|
            #![trigger words[i][k]]
            0 <= i < words.len() && 0 <= k < words[i].len() ==> pieces.contains(seq![words[i][k]]),
        cuts.len() == places.len() + 1,
        ({
            let m = seq!['\u{2581}'] + with_between(words, '\u{2581}');
            cuts[0] == Seq::new(m.len(), |i: int| seq![m[i]])
        }),
        forall|j: int|
            #![trigger places[j]]
            0 <= j < places.len() ==> merges_first(pieces, scores, cuts[j], places[j]) && cuts[j
                + 1] == cuts[j].update(
                places[j],
                cuts[j][places[j]] + cuts[j][places[j] + 1],
            ).remove(places[j] + 1),
        merged_out(pieces, scores, cuts.last()),
    ensures
        ({
            let ids = encoded(pieces, scores, spaced(words, gaps));
            &&& ids.len() == cuts.last().len()
            &&& forall|i: int|
                0 <= i < ids.len() ==> (#[trigger] ids[i]) < pieces.len() && pieces[ids[i] as int]
                    == cuts.last()[i]
        }),
{
    let text = spaced(words, gaps);
    let m = seq!['\u{2581}'] + with_between(words, '\u{2581}');
    marking_sets_a_boundary_before_each_word(words, gaps);
    trimming_keeps_trimmed_text(text);
    lemma_covers_words(pieces, words);
    lemma_id_of(pieces, seq!['\u{2581}']);
    let inner = with_between(words, '\u{2581}');
    assert(covers(pieces, m)) by {
        assert forall|i: int| 0 <= i < m.len() implies id_of(
            pieces,
            seq![#[trigger] m[i]],
        ) is Some by {
            if i > 0 {
                assert(m[i] == inner[i - 1]);
            }
        }
    }
    let start = initial_parts(pieces, m);
    lemma_initial_parts_spell(pieces, m);
    lemma_initial_texts(pieces, m);
    lemma_merge_trace(pieces, scores, start, cuts, places, 0);
    lemma_merging_keeps_names(pieces, scores, start);
    let out = merge_all(pieces, scores, start);
    let ids = part_ids(out);
    assert(part_texts(out).len() == cuts.last().len());
    assert forall|i: int| 0 <= i < ids.len() implies (#[trigger] ids[i]) < pieces.len()
        && pieces[ids[i] as int] == cuts.last()[i] by {
        assert(out[i].1 == ids[i]);
        assert(part_texts(out)[i] == out[i].0);
    }
}

proof fn lemma_initial_texts(pieces: Seq<Seq<char>>, s: Seq<char>)
    requires
        pieces.len() <= u32::MAX,
        covers(pieces, s),
    ensures
        part_texts(initial_parts(pieces, s)) == Seq::new(s.len(), |i: int| seq![s[i]]),
    decreases s.len(),
{
    if s.len() == 0 {
        assert(part_texts(initial_parts(pieces, s)) =~= Seq::new(s.len(), |i: int| seq![s[i]]));
    } else {
        let before = s.drop_last();
        assert forall|i: int| 0 <= i < before.len() implies id_of(
            pieces,
            seq![#[trigger] before[i]],
        ) is Some by {
            assert(before[i] == s[i]);
        }
        lemma_initial_texts(pieces, before);
        assert(s[s.len() - 1] == s.last());
        let parts = initial_parts(pieces, s);
        let first = initial_parts(pieces, before);
        assert(char_parts(pieces, s.last()).len() == 1);
        assert(part_texts(first).len() == before.len());
        assert forall|i: int| 0 <= i < s.len() implies part_texts(parts)[i] == seq![s[i]] by {
            if i < before.len() {
                assert(part_texts(first)[i] == first[i].0);
                assert(parts[i] == first[i]);
            }
        }
        assert(part_texts(parts) =~= Seq::new(s.len(), |i: int| seq![s[i]]));
    }
}

/// Pieces, one after another.
pub open spec fn in_a_row(cut: Seq<Seq<char>>) -> Seq<char>
    decreases cut.len(),
{
    if cut.len() == 0 {
        Seq::empty()
    } else {
        cut[0] + in_a_row(cut.skip(1))
    }
}

/// Without scores the longest piece is taken each time, from the left. `cut` is
/// the marked text in pieces, of which none could be longer where it stands.
pub proof fn without_scores_the_longest_piece_is_taken(pieces: Seq<Seq<char>>, cut: Seq<Seq<char>>)
    requires
        pieces.len() <= u32::MAX,
        forall|i: int|
            #![trigger cut[i]]
            0 <= i < cut.len() ==> cut[i].len() > 0 && pieces.contains(cut[i]) && forall|n: int|
                cut[i].len() < n <= in_a_row(cut.skip(i)).len() ==> !pieces.contains(
                    #[trigger] in_a_row(cut.skip(i)).take(n),
                ),
    ensures
        ({
            let ids = greedy_ids(pieces, in_a_row(cut));
            &&& ids.len() == cut.len()
            &&& forall|i: int|
                0 <= i < ids.len() ==> goes_by(pieces, cut[i], #[trigger] ids[i] as int)
        }),
    decreases cut.len(),
{
    let s = in_a_row(cut);
    let ids = greedy_ids(pieces, s);
    if cut.len() > 0 {
        let first = cut[0];
        let rest = cut.skip(1);
        let tail = in_a_row(rest);
        let k = first.len() as int;
        assert(cut.skip(0) =~= cut);
        assert(s.take(k) =~= first);
        assert(s.skip(k) =~= tail);
        a_piece_goes_by_its_last_place(pieces, first);
        lemma_longest(pieces, s, s.len() as int);
        lemma_longest_is(pieces, s, k, s.len() as int);
        assert forall|i: int|
            #![trigger rest[i]]
            0 <= i < rest.len() implies rest[i].len() > 0 && pieces.contains(rest[i]) && forall|
            n: int,
        |
            rest[i].len() < n <= in_a_row(rest.skip(i)).len() ==> !pieces.contains(
                #[trigger] in_a_row(rest.skip(i)).take(n),
            ) by {
            assert(rest[i] == cut[i + 1]);
            assert(rest.skip(i) =~= cut.skip(i + 1));
        }
        without_scores_the_longest_piece_is_taken(pieces, rest);
        let later = greedy_ids(pieces, tail);
        assert(ids == seq![id_or_unknown(pieces, first)] + later);
        assert forall|i: int| 0 <= i < ids.len() implies goes_by(
            pieces,
            cut[i],
            #[trigger] ids[i] as int,
        ) by {
            if i > 0 {
                assert(ids[i] == later[i - 1]);
                assert(rest[i - 1] == cut[i]);
            }
        }
    }
}

proof fn lemma_longest_is(pieces: Seq<Seq<char>>, s: Seq<char>, k: int, top: int)
    requires
        0 < k <= top <= s.len(),
        pieces.contains(s.take(k)),
        forall|n: int| k < n <= s.len() ==> !pieces.contains(#[trigger] s.take(n)),
    ensures
        longest(pieces, s, top) == Some(k),
    decreases top,
{
    a_piece_goes_by_its_last_place(pieces, s.take(top));
    if top > k {
        assert(!pieces.contains(s.take(top)));
        if let Some(id) = id_of(pieces, s.take(top)) {
            assert(pieces[id] == s.take(top));
        }
        lemma_longest_is(pieces, s, k, top - 1);
    }
}

/// A character that is no piece is spelled in its UTF-8 bytes, a piece `<0xHH>`
/// to a byte, with the two hexadecimal digits of the byte in capitals.
pub proof fn unknown_characters_are_spelled_in_bytes(pieces: Seq<Seq<char>>, c: char, i: int)
    requires
        pieces.len() <= u32::MAX,
        !pieces.contains(seq![c]),
        0 <= i < encode_utf8(seq![c]).len(),
    ensures
        ({
            let bytes = encode_utf8(seq![c]);
            let digits = "0123456789ABCDEF"@;
            let piece = seq![
                '<',
                '0',
                'x',
                digits[bytes[i] as int / 16],
                digits[bytes[i] as int % 16],
                '>',
            ];
            let parts = char_parts(pieces, c);
            &&& parts.len() == bytes.len()
            &&& parts[i].0 == piece
            &&& pieces.contains(piece) ==> goes_by(pieces, piece, parts[i].1 as int)
            &&& !pieces.contains(piece) ==> parts[i].1 == 3
        }),
{
    reveal_strlit("0123456789ABCDEF");
    let bytes = encode_utf8(seq![c]);
    let digits = "0123456789ABCDEF"@;
    let b = bytes[i];
    a_piece_goes_by_its_last_place(pieces, seq![c]);
    if let Some(id) = id_of(pieces, seq![c]) {
        assert(pieces[id] == seq![c]);
    }
    let (hi, lo) = (b as int / 16, b as int % 16);
    assert(hex_digit(hi) == digits[hi]);
    assert(hex_digit(lo) == digits[lo]);
    let piece = seq!['<', '0', 'x', digits[hi], digits[lo], '>'];
    assert(byte_piece(b) =~= piece);
    a_piece_goes_by_its_last_place(pieces, piece);
    if let Some(id) = id_of(pieces, piece) {
        assert(pieces[id] == piece);
    }
}

/// A vocabulary file gives back the pieces that were written in it, a line each,
/// with a tab and a score behind those that have one.
pub proof fn a_vocabulary_file_reads_back(
    pieces: Seq<Seq<char>>,
    scores: Seq<Option<Seq<char>>>,
    crlf: bool,
    read: Seq<u32>,
)
    requires
        pieces.len() == scores.len() == read.len(),
        forall|i: int, k: int|
            #![trigger pieces[i][k]]
            0 <= i < pieces.len() && 0 <= k < pieces[i].len() ==> pieces[i][k] != '\t'
                && pieces[i][k] != '\n' && pieces[i][k] != '\r',
        forall|i: int|
            #![trigger scores[i]]
            0 <= i < scores.len() && scores[i] is Some ==> {
                let t = scores[i]->0;
                &&& t.len() > 0 && !white_space(t[0]) && !white_space(t.last())
                &&& forall|k: int| 0 <= k < t.len() ==> #[trigger] t[k] != '\n'
            },
    ensures
        ({
            let content = with_line_feeds(vocabulary_lines(pieces, scores), crlf);
            &&& file_pieces(content) == pieces
            &&& lines(content).len() == pieces.len()
            &&& forall|i: int|
                #![trigger scores[i]]
                0 <= i < scores.len() ==> line_score(lines(content)[i]) == scores[i]
            &&& (exists|i: int| 0 <= i < scores.len() && #[trigger] scores[i] is Some) ==> file_scores(
                content,
                read,
            ) == Seq::new(
                scores.len(),
                |i: int|
                    if scores[i] is Some {
                        read[i]
                    } else {
                        0u32
                    },
            )
            &&& !(exists|i: int| 0 <= i < scores.len() && #[trigger] scores[i] is Some)
                ==> file_scores(content, read).len() == 0
        }),
{
    let list = vocabulary_lines(pieces, scores);
    let content = with_line_feeds(list, crlf);
    assert forall|i: int, k: int|
        #![trigger list[i][k]]
        0 <= i < list.len() && 0 <= k < list[i].len() implies list[i][k] != '\n' by {
        let n = pieces[i].len() as int;
        if k < n {
            assert(list[i][k] == pieces[i][k]);
        } else if k > n {
            assert(list[i][k] == scores[i]->0[k - n - 1]);
        }
    }
    assert forall|i: int| 0 <= i < list.len() && (#[trigger] list[i]).len() > 0 implies
        list[i].last() != '\r' by {
        if scores[i] is Some {
            assert(list[i].last() == scores[i]->0.last());
        } else {
            let n = pieces[i].len() - 1;
            assert(list[i].last() == pieces[i][n]);
        }
    }
    lines_read_back(list, Seq::empty(), crlf);
    assert(content + Seq::<char>::empty() =~= content);
    assert(lines(content) == list);
    assert forall|i: int| 0 <= i < list.len() implies line_piece(#[trigger] list[i]) == pieces[i]
        && line_score(list[i]) == scores[i] && line_has_score(list[i]) == (scores[i] is Some) by {
        let line = list[i];
        let n = pieces[i].len() as int;
        lemma_index_from(line, 0, '\t');
        let k = index_from(line, 0, '\t');
        if k < n {
            assert(line[k] == pieces[i][k]);
        }
        if scores[i] is Some {
            assert(line[n] == '\t');
            assert(k == n);
            assert(line.skip(n + 1) =~= scores[i]->0);
            trimming_keeps_trimmed_text(scores[i]->0);
        }
        assert(line.take(k) =~= pieces[i]);
    }
    assert(file_pieces(content) =~= pieces);
    if exists|i: int| 0 <= i < scores.len() && #[trigger] scores[i] is Some {
        let i = choose|i: int| 0 <= i < scores.len() && #[trigger] scores[i] is Some;
        assert(line_has_score(lines(content)[i]));
        assert(file_scores(content, read) =~= Seq::new(
            scores.len(),
            |i: int|
                if scores[i] is Some {
                    read[i]
                } else {
                    0u32
                },
        ));
    } else {
        assert(!file_has_scores(content)) by {
            if file_has_scores(content) {
                let i = choose|i: int|
                    0 <= i < lines(content).len() && line_has_score(#[trigger] lines(content)[i]);
                assert(scores[i] is Some);
            }
        }
    }
}

/// The lines of a vocabulary file.
pub open spec fn vocabulary_lines(
    pieces: Seq<Seq<char>>,
    scores: Seq<Option<Seq<char>>>,
) -> Seq<Seq<char>> {
    Seq::new(
        pieces.len(),
        |i: int|
            match scores[i] {
                Some(t) => pieces[i] + seq!['\t'] + t,
                None => pieces[i],
            },
    )
}

/// Encoding without scores cuts the words, a boundary before each, into the
/// longest pieces from the left.
pub proof fn encoding_without_scores_is_greedy(
    pieces: Seq<Seq<char>>,
    words: Seq<Seq<char>>,
    gaps: Seq<Seq<char>>,
    cut: Seq<Seq<char>>,
)
    requires
        pieces.len() <= u32::MAX,
        words.len() > 0,
        gaps.len() == words.len() - 1,
        are_words(words),
        forall|i: int| 0 <= i < words.len() ==> (#[trigger] words[i]).len() > 0,
        are_gaps(gaps),
        in_a_row(cut) == seq!['\u{2581}'] + with_between(words, '\u{2581}'),
        forall|i: int|
            #![trigger cut[i]]
            0 <= i < cut.len() ==> cut[i].len() > 0 && pieces.contains(cut[i]) && forall|n: int|
                cut[i].len() < n <= in_a_row(cut.skip(i)).len() ==> !pieces.contains(
                    #[trigger] in_a_row(cut.skip(i)).take(n),
                ),
    ensures
        ({
            let ids = encoded(pieces, Seq::empty(), spaced(words, gaps));
            &&& ids.len() == cut.len()
            &&& forall|i: int|
                0 <= i < ids.len() ==> goes_by(pieces, cut[i], #[trigger] ids[i] as int)
        }),
{
    marking_sets_a_boundary_before_each_word(words, gaps);
    trimming_keeps_trimmed_text(spaced(words, gaps));
    without_scores_the_longest_piece_is_taken(pieces, cut);
}

/// Text of white space alone has no ids.
pub proof fn blank_text_has_no_ids(pieces: Seq<Seq<char>>, scores: Seq<u32>, text: Seq<char>)
    requires
        forall|i: int| 0 <= i < text.len() ==> white_space(#[trigger] text[i]),
    ensures
        encoded(pieces, scores, text).len() == 0,
{
    trimming_takes_off_what_surrounds(text, Seq::empty(), Seq::empty());
    assert(text + Seq::<char>::empty() + Seq::<char>::empty() =~= text);
}

/// Decoding goes token by token and character by character: every boundary mark
/// becomes a space and nothing else changes. Tokens outside the vocabulary add
/// nothing.
pub proof fn decoding_goes_token_by_token(
    pieces: Seq<Seq<char>>,
    before: Seq<u32>,
    id: u32,
    i: int,
)
    ensures
        joined(pieces, before.push(id)) == joined(pieces, before) + token_text(pieces, id),
        id >= pieces.len() ==> token_text(pieces, id).len() == 0,
        id < pieces.len() ==> token_text(pieces, id).len() == pieces[id as int].len(),
        id < pieces.len() && 0 <= i < pieces[id as int].len() ==> token_text(pieces, id)[i] == if (
        pieces[id as int][i] as int) == 0x2581 {
            ' '
        } else {
            pieces[id as int][i]
        },
        joined(pieces, Seq::empty()).len() == 0,
{
    assert(before.push(id).drop_last() =~= before);
}

} // verus!
