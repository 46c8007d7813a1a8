use vstd::prelude::*;

use crate::fixtag::FixTag;
use crate::fixtag::TAG_COUNT;
use crate::fixtag::spec_parse_tag;
use crate::fixtag::spec_rank;
use crate::fixtag::spec_tag_of_rank;
use crate::fixtag::spec_wire;
use crate::order::Order;
use crate::order::OrderV;
use crate::order::Side;
use crate::strutil::chars_of;
use crate::strutil::chars_to_string;
use crate::strutil::copy_range;

verus! {

/// The field delimiter that `encode` writes between fields.
pub open spec fn field_sep() -> char {
    '|'
}

/// The frame terminator that closes every encoded message.
pub open spec fn frame_end() -> char {
    '\u{1}'
}

/// A message is a partial assignment of values to the nineteen tags,
/// modelled as one slot per tag in declaration order.
pub struct FixMessage {
    pub fields: Vec<Option<String>>,
}

/// One encoded field: `<numeric-tag>=<value>|`, or nothing when the slot is
/// empty.
pub open spec fn field_text(fs: Seq<Option<Seq<char>>>, i: int) -> Seq<char> {
    match fs[i] {
        Some(v) => spec_wire(spec_tag_of_rank(i)) + seq!['='] + v + seq![field_sep()],
        None => Seq::empty(),
    }
}

/// The encoded fields with rank below `i`, concatenated in declaration
/// order.
pub open spec fn enc_upto(fs: Seq<Option<Seq<char>>>, i: int) -> Seq<char>
    decreases i,
{
    if i <= 0 {
        Seq::empty()
    } else {
        enc_upto(fs, i - 1) + field_text(fs, i - 1)
    }
}

/// The full encoding: every present field in declaration order, then the
/// frame terminator.
pub open spec fn spec_encode(fs: Seq<Option<Seq<char>>>) -> Seq<char> {
    enc_upto(fs, TAG_COUNT as int) + seq![frame_end()]
}

impl View for FixMessage {
    type V = Seq<Option<Seq<char>>>;

    open spec fn view(&self) -> Seq<Option<Seq<char>>> {
        self.fields@.map_values(
            |o: Option<String>|
                match o {
                    Some(s) => Some(s@),
                    None => None,
                },
        )
    }
}

impl FixMessage {
    /// A message always has one slot per tag.
    pub open spec fn wf(&self) -> bool {
        self.fields@.len() == TAG_COUNT
    }

    /// A message with every slot empty.
    pub fn new() -> (r: FixMessage)
        ensures
            r.wf(),
            forall|i: int| 0 <= i < TAG_COUNT ==> r@[i] is None,
    {
        let mut fields: Vec<Option<String>> = Vec::new();
        let mut i: usize = 0;
        while i < TAG_COUNT
            invariant
                i <= TAG_COUNT,
                fields@.len() == i,
                forall|j: int| 0 <= j < i ==> fields@[j] is None,
            decreases TAG_COUNT - i,
        {
            fields.push(None);
            i = i + 1;
        }
        FixMessage { fields }
    }

    /// Sets the tag's value, replacing whatever the slot held.
    pub fn add_field(&mut self, tag: FixTag, value: &str)
        requires
            old(self).wf(),
        ensures
            final(self).wf(),
            final(self)@ == old(self)@.update(spec_rank(tag), Some(value@)),
    {
        let r = tag.rank();
        self.fields[r] = Some(value.to_owned());
        proof {
            assert(final(self)@ =~= old(self)@.update(spec_rank(tag), Some(value@)));
        }
    }

    /// Clears the tag's slot.
    pub fn remove_field(&mut self, tag: &FixTag)
        requires
            old(self).wf(),
        ensures
            final(self).wf(),
            final(self)@ == old(self)@.update(spec_rank(*tag), None::<Seq<char>>),
    {
        let r = tag.rank();
        self.fields[r] = None;
        proof {
            assert(final(self)@ =~= old(self)@.update(spec_rank(*tag), None::<Seq<char>>));
        }
    }

    /// The tag's value, if the slot holds one.
    pub fn get_field(&self, tag: FixTag) -> (r: Option<&String>)
        requires
            self.wf(),
        ensures
            match r {
                Some(s) => self@[spec_rank(tag)] == Some(s@),
                None => self@[spec_rank(tag)] is None,
            },
    {
        let r = tag.rank();
        match &self.fields[r] {
            Some(s) => Some(s),
            None => None,
        }
    }

    /// How many slots hold a value.
    pub fn field_count(&self) -> (n: usize)
        requires
            self.wf(),
        ensures
            n == count_fields(self@, TAG_COUNT as int),
    {
        let mut n: usize = 0;
        let mut i: usize = 0;
        while i < TAG_COUNT
            invariant
                self.wf(),
                i <= TAG_COUNT,
                n == count_fields(self@, i as int),
                n <= i,
            decreases TAG_COUNT - i,
        {
            if self.fields[i].is_some() {
                n = n + 1;
            }
            i = i + 1;
        }
        n
    }
}

impl FixMessage {
    /// Relies on chrono's `Utc::now` and `DateTime::format`: the current
    /// wall-clock time rendered as `YYYYMMDD-HH:MM:SS.mmm`. That format
    /// writes only digits and the punctuation `-`, `:`, `.` (with a sign
    /// for years outside four digits), so the result never contains the
    /// field separator, `=`, or the frame terminator.
    #[verifier::external_body]
    pub fn get_time() -> (r: String)
        ensures
            time_ok(r@),
    {
        chrono::Utc::now().format("%Y%m%d-%H:%M:%S%.3f").to_string()
    }

    /// Stamps `SendingTime` with the current clock, then writes every
    /// present field as `<numeric-tag>=<value>|` in declaration order and
    /// closes the frame.
    pub fn encode(&mut self) -> (r: String)
        requires
            old(self).wf(),
        ensures
            final(self).wf(),
            final(self)@ == old(self)@.update(
                spec_rank(FixTag::SendingTime),
                final(self)@[spec_rank(FixTag::SendingTime)],
            ),
            final(self)@[spec_rank(FixTag::SendingTime)] matches Some(t) && time_ok(t),
            r@ == spec_encode(final(self)@),
    {
        let t = Self::get_time();
        self.add_field(FixTag::SendingTime, t.as_str());
        proof {
            assert(final(self)@ =~= old(self)@.update(
                spec_rank(FixTag::SendingTime),
                final(self)@[spec_rank(FixTag::SendingTime)],
            ));
        }
        let ghost fs = self@;
        let mut out = String::new();
        let mut i: usize = 0;
        while i < TAG_COUNT
            invariant
                self.wf(),
                self@ == fs,
                i <= TAG_COUNT,
                out@ == enc_upto(fs, i as int),
            decreases TAG_COUNT - i,
        {
            match &self.fields[i] {
                Some(v) => {
                    let tag = FixTag::of_rank(i);
                    out.append(tag.wire_str());
                    out.append("=");
                    out.append(v.as_str());
                    out.append("|");
                    proof {
                        reveal_strlit("=");
                        reveal_strlit("|");
                        assert("="@ =~= seq!['=']);
                        assert("|"@ =~= seq![field_sep()]);
                        assert(fs[i as int] == Some(v@));
                        assert(out@ =~= enc_upto(fs, i as int + 1));
                    }
                },
                None => {
                    proof {
                        assert(field_text(fs, i as int) =~= Seq::<char>::empty());
                        assert(out@ =~= enc_upto(fs, i as int + 1));
                    }
                },
            }
            i = i + 1;
        }
        out.append("\x01");
        proof {
            reveal_strlit("\x01");
            assert("\x01"@ =~= seq![frame_end()]);
            assert(out@ =~= spec_encode(fs));
        }
        out
    }
}

/// The pattern occurs in `m` starting at position `i`.
pub open spec fn is_match_at(m: Seq<char>, pat: Seq<char>, i: int) -> bool {
    0 <= i && i + pat.len() <= m.len() && m.subrange(i, i + pat.len()) == pat
}

/// First position at or after `from` where the pattern occurs, or `-1`.
pub open spec fn find_pat_from(m: Seq<char>, pat: Seq<char>, from: int) -> int
    decreases m.len() - from + 1,
{
    if from < 0 || from + pat.len() > m.len() {
        -1
    } else if is_match_at(m, pat, from) {
        from
    } else {
        find_pat_from(m, pat, from + 1)
    }
}

/// First position at or after `from` holding the character, or `-1`.
pub open spec fn find_char_from(s: Seq<char>, c: char, from: int) -> int
    decreases s.len() - from,
{
    if from < 0 || from >= s.len() {
        -1
    } else if s[from] == c {
        from
    } else {
        find_char_from(s, c, from + 1)
    }
}

/// `find_pat_from` lands on the first occurrence at or after `from`, or
/// reports that there is none.
pub proof fn lemma_find_pat_from(m: Seq<char>, pat: Seq<char>, from: int)
    requires
        from >= 0,
    ensures
        find_pat_from(m, pat, from) == -1 ==> forall|j: int|
            from <= j ==> !is_match_at(m, pat, j),
        find_pat_from(m, pat, from) != -1 ==> {
            &&& from <= find_pat_from(m, pat, from)
            &&& is_match_at(m, pat, find_pat_from(m, pat, from))
            &&& forall|j: int| from <= j < find_pat_from(m, pat, from) ==> !is_match_at(m, pat, j)
        },
    decreases m.len() - from + 1,
{
    if from + pat.len() > m.len() {
        assert forall|j: int| from <= j implies !is_match_at(m, pat, j) by {}
    } else if !is_match_at(m, pat, from) {
        lemma_find_pat_from(m, pat, from + 1);
    }
}

/// `find_char_from` lands on the first occurrence at or after `from`, or
/// reports that there is none.
pub proof fn lemma_find_char_from(s: Seq<char>, c: char, from: int)
    requires
        from >= 0,
    ensures
        find_char_from(s, c, from) == -1 ==> forall|j: int|
            from <= j < s.len() ==> s[j] != c,
        find_char_from(s, c, from) != -1 ==> {
            &&& from <= find_char_from(s, c, from) < s.len()
            &&& s[find_char_from(s, c, from)] == c
            &&& forall|j: int| from <= j < find_char_from(s, c, from) ==> s[j] != c
        },
    decreases s.len() - from,
{
    if from < s.len() && s[from] != c {
        lemma_find_char_from(s, c, from + 1);
    }
}

/// The text with every trailing copy of the delimiter shaved off.
pub open spec fn trim_end(m: Seq<char>, d: Seq<char>) -> Seq<char>
    decreases m.len(),
{
    if d.len() > 0 && m.len() >= d.len() && m.subrange(m.len() - d.len(), m.len() as int) == d {
        trim_end(m.take(m.len() - d.len()), d)
    } else {
        m
    }
}

/// The pieces of `m` between occurrences of the delimiter, leftmost first;
/// a piece may be empty, and text without the delimiter is one piece.
pub open spec fn split_spec(m: Seq<char>, d: Seq<char>) -> Seq<Seq<char>>
    decreases m.len(),
{
    if d.len() == 0 {
        seq![m]
    } else {
        let j = find_pat_from(m, d, 0);
        if j < 0 || j + d.len() > m.len() {
            seq![m]
        } else {
            seq![m.take(j)] + split_spec(m.skip(j + d.len()), d)
        }
    }
}

/// What one `tag=value` token does to the field table: a token without
/// exactly one `=`, or whose tag is outside the vocabulary, is skipped;
/// otherwise the tag's slot takes the value, replacing an earlier one.
pub open spec fn apply_token(fs: Seq<Option<Seq<char>>>, tok: Seq<char>) -> Seq<
    Option<Seq<char>>,
> {
    let p = find_char_from(tok, '=', 0);
    if p == -1 {
        fs
    } else if find_char_from(tok, '=', p + 1) != -1 {
        fs
    } else {
        match spec_parse_tag(tok.take(p)) {
            Some(tag) => fs.update(spec_rank(tag), Some(tok.skip(p + 1))),
            None => fs,
        }
    }
}

/// The field table after the tokens from `i` on are applied in order.
pub open spec fn apply_tokens(
    fs: Seq<Option<Seq<char>>>,
    toks: Seq<Seq<char>>,
    i: int,
) -> Seq<Option<Seq<char>>>
    decreases toks.len() - i,
{
    if i < 0 || i >= toks.len() {
        fs
    } else {
        apply_tokens(apply_token(fs, toks[i]), toks, i + 1)
    }
}

/// The empty field table.
pub open spec fn empty_fields() -> Seq<Option<Seq<char>>> {
    Seq::new(TAG_COUNT as nat, |i: int| None::<Seq<char>>)
}

/// What decoding does: trim trailing delimiters, split on the delimiter,
/// and fold the `tag=value` tokens into an empty table.
pub open spec fn spec_decode(m: Seq<char>, d: Seq<char>) -> Seq<Option<Seq<char>>> {
    apply_tokens(empty_fields(), split_spec(trim_end(m, d), d), 0)
}

/// A rendered timestamp never holds a field separator, an `=`, or the frame
/// terminator, so stamping it into a message keeps the frame parseable.
pub open spec fn time_ok(t: Seq<char>) -> bool {
    forall|i: int| 0 <= i < t.len() ==> t[i] != field_sep() && t[i] != '=' && t[i] != frame_end()
}

/// Whether the pattern occurs at position `i`.
#[verifier::loop_isolation(false)]
fn match_at_exec(m: &Vec<char>, pat: &Vec<char>, i: usize) -> (b: bool)
    requires
        i + pat@.len() <= m@.len(),
    ensures
        b == is_match_at(m@, pat@, i as int),
{
    let n = m.len();
    let mut k: usize = 0;
    while k < pat.len()
        invariant
            i + pat@.len() <= m@.len(),
            k <= pat@.len(),
            forall|x: int| 0 <= x < k ==> m@[i + x] == pat@[x],
        decreases pat@.len() - k,
    {
        if m[i + k] != pat[k] {
            proof {
                assert(m@.subrange(i as int, i + pat@.len())[k as int] != pat@[k as int]);
            }
            return false;
        }
        k = k + 1;
    }
    proof {
        assert(m@.subrange(i as int, i + pat@.len()) =~= pat@);
    }
    true
}

/// First occurrence of the pattern at or after `from`.
#[verifier::loop_isolation(false)]
pub(crate) fn find_pat_exec(m: &Vec<char>, pat: &Vec<char>, from: usize) -> (r: Option<usize>)
    requires
        pat@.len() >= 1,
        from <= m@.len(),
    ensures
        match r {
            Some(j) => j as int == find_pat_from(m@, pat@, from as int) && from <= j && j + pat@.len()
                <= m@.len(),
            None => find_pat_from(m@, pat@, from as int) == -1,
        },
{
    proof {
        lemma_find_pat_from(m@, pat@, from as int);
    }
    if m.len() < pat.len() {
        proof {
            if find_pat_from(m@, pat@, from as int) != -1 {
                assert(is_match_at(m@, pat@, find_pat_from(m@, pat@, from as int)));
            }
        }
        return None;
    }
    let last = m.len() - pat.len();
    let mut i: usize = from;
    while i <= last
        invariant
            pat@.len() >= 1,
            pat@.len() <= m@.len(),
            last == m@.len() - pat@.len(),
            from <= i,
            i <= last + 1 || i == from,
            forall|j: int| from <= j < i ==> !is_match_at(m@, pat@, j),
        decreases m@.len() - i,
    {
        if match_at_exec(m, pat, i) {
            proof {
                lemma_find_pat_from(m@, pat@, from as int);
                let f = find_pat_from(m@, pat@, from as int);
                if f == -1 {
                    assert(!is_match_at(m@, pat@, i as int));
                }
                if f < i {
                    assert(is_match_at(m@, pat@, f));
                }
                if f > i {
                    assert(!is_match_at(m@, pat@, i as int));
                }
            }
            return Some(i);
        }
        i = i + 1;
    }
    proof {
        lemma_find_pat_from(m@, pat@, from as int);
        let f = find_pat_from(m@, pat@, from as int);
        if f != -1 {
            assert(is_match_at(m@, pat@, f));
            assert(f + pat@.len() <= m@.len());
            assert(false);
        }
    }
    None
}

/// First occurrence of the character at or after `from`.
#[verifier::loop_isolation(false)]
pub(crate) fn find_char_exec(s: &Vec<char>, c: char, from: usize) -> (r: Option<usize>)
    ensures
        match r {
            Some(j) => j as int == find_char_from(s@, c, from as int) && from <= j && j < s@.len(),
            None => find_char_from(s@, c, from as int) == -1,
        },
{
    proof {
        lemma_find_char_from(s@, c, from as int);
    }
    let mut i: usize = from;
    while i < s.len()
        invariant
            from <= i,
            forall|j: int| from <= j < i && j < s@.len() ==> s@[j] != c,
        decreases s@.len() - i,
    {
        if s[i] == c {
            proof {
                lemma_find_char_from(s@, c, from as int);
                let f = find_char_from(s@, c, from as int);
                if f < i {
                    assert(s@[f] == c);
                }
                if f > i || f == -1 {
                    assert(s@[i as int] != c);
                }
            }
            return Some(i);
        }
        i = i + 1;
    }
    None
}

/// The text with every trailing copy of the delimiter shaved off.
fn trim_end_exec(m: Vec<char>, d: &Vec<char>) -> (r: Vec<char>)
    requires
        d@.len() >= 1,
    ensures
        r@ == trim_end(m@, d@),
    decreases m@.len(),
{
    if m.len() >= d.len() {
        let start = m.len() - d.len();
        if match_at_exec(&m, d, start) {
            proof {
                assert(m@.subrange(start as int, m@.len() as int) == d@);
            }
            let shorter = copy_range(&m, 0, start);
            proof {
                assert(shorter@ =~= m@.take(m@.len() - d@.len()));
            }
            return trim_end_exec(shorter, d);
        }
        proof {
            assert(m@.subrange(m@.len() - d@.len(), m@.len() as int) != d@);
        }
    }
    m
}

/// The pieces of `m` between occurrences of the delimiter, leftmost first.
fn split_exec(m: Vec<char>, d: &Vec<char>) -> (r: Vec<Vec<char>>)
    requires
        d@.len() >= 1,
    ensures
        r@.len() == split_spec(m@, d@).len(),
        forall|k: int| 0 <= k < r@.len() ==> (#[trigger] r@[k])@ == split_spec(m@, d@)[k],
    decreases m@.len(),
{
    match find_pat_exec(&m, d, 0) {
        None => {
            let r = vec![m];
            proof {
                assert(split_spec(r[0]@, d@) == seq![r[0]@]);
            }
            r
        },
        Some(j) => {
            let mlen = m.len();
            let head = copy_range(&m, 0, j);
            let tail = copy_range(&m, j + d.len(), mlen);
            proof {
                assert(head@ =~= m@.take(j as int));
                assert(tail@ =~= m@.skip(j + d@.len()));
            }
            let mut rest = split_exec(tail, d);
            rest.insert(0, head);
            proof {
                let ss = split_spec(m@, d@);
                assert(ss == seq![m@.take(j as int)] + split_spec(m@.skip(j + d@.len()), d@));
                assert forall|k: int| 0 <= k < rest@.len() implies (#[trigger] rest@[k])@
                    == ss[k] by {
                    if k > 0 {
                        assert(ss[k] == split_spec(m@.skip(j + d@.len()), d@)[k - 1]);
                    }
                }
            }
            rest
        },
    }
}

/// Applies one `tag=value` token to the field table, skipping tokens
/// without exactly one `=` and tokens whose tag is outside the vocabulary.
fn process_token(fields: &mut FixMessage, tok: &Vec<char>)
    requires
        old(fields).wf(),
    ensures
        final(fields).wf(),
        final(fields)@ == apply_token(old(fields)@, tok@),
{
    let n = tok.len();
    let p = match find_char_exec(tok, '=', 0) {
        None => {
            return ;
        },
        Some(p) => p,
    };
    match find_char_exec(tok, '=', p + 1) {
        Some(_) => {
            return ;
        },
        None => {},
    }
    let tag_chars = copy_range(tok, 0, p);
    proof {
        assert(tag_chars@ =~= tok@.take(p as int));
    }
    let tag_str = chars_to_string(&tag_chars);
    match FixTag::from_wire(tag_str.as_str()) {
        Some(tag) => {
            let value_chars = copy_range(tok, p + 1, tok.len());
            proof {
                assert(value_chars@ =~= tok@.skip(p + 1));
            }
            let value = chars_to_string(&value_chars);
            fields.add_field(tag, value.as_str());
        },
        None => {},
    }
}

impl FixMessage {
    /// Decodes a frame: trims trailing delimiters, splits the text on the
    /// delimiter, and reads each `tag=value` token into the message.
    /// Malformed tokens and unknown tags are skipped, never fatal; a later
    /// token for the same tag replaces an earlier one.
    pub fn decode(message: &str, delimiters: &str) -> (r: FixMessage)
        requires
            delimiters@.len() >= 1,
        ensures
            r.wf(),
            r@ == spec_decode(message@, delimiters@),
    {
        let m = chars_of(message);
        let d = chars_of(delimiters);
        let trimmed = trim_end_exec(m, &d);
        let toks = split_exec(trimmed, &d);
        let ghost ts = split_spec(trim_end(message@, delimiters@), delimiters@);
        let mut r = FixMessage::new();
        proof {
            assert(r@ =~= empty_fields());
        }
        let mut i: usize = 0;
        while i < toks.len()
            invariant
                r.wf(),
                i <= toks@.len(),
                toks@.len() == ts.len(),
                forall|k: int| 0 <= k < toks@.len() ==> (#[trigger] toks@[k])@ == ts[k],
                apply_tokens(r@, ts, i as int) == apply_tokens(empty_fields(), ts, 0),
            decreases toks@.len() - i,
        {
            process_token(&mut r, &toks[i]);
            i = i + 1;
        }
        r
    }
}

/// The order a message carries: `Symbol` as given; `OrderQty` read as an
/// unsigned integer; `Price` read as a four-decimal tick count; `Side` read
/// as an integer where `1` buys and `2` sells. A missing or unreadable
/// required field means no order at all.
pub open spec fn spec_to_order(fs: Seq<Option<Seq<char>>>, id: u32) -> Option<OrderV> {
    match fs[spec_rank(FixTag::Symbol)] {
        None => None,
        Some(sym) => match fs[spec_rank(FixTag::OrderQty)] {
            None => None,
            Some(q) => match crate::numparse::parse_u32_spec(q) {
                None => None,
                Some(qty) => match fs[spec_rank(FixTag::Price)] {
                    None => None,
                    Some(pr) => match crate::numparse::parse_price_spec(pr) {
                        None => None,
                        Some(price) => match fs[spec_rank(FixTag::Side)] {
                            None => None,
                            Some(sd) => match crate::numparse::parse_u32_spec(sd) {
                                None => None,
                                Some(v) => if v == 1 {
                                    Some(
                                        OrderV {
                                            id,
                                            symbol: sym,
                                            quantity: qty,
                                            price,
                                            side: Side::Buy,
                                        },
                                    )
                                } else if v == 2 {
                                    Some(
                                        OrderV {
                                            id,
                                            symbol: sym,
                                            quantity: qty,
                                            price,
                                            side: Side::Sell,
                                        },
                                    )
                                } else {
                                    None
                                },
                            },
                        },
                    },
                },
            },
        },
    }
}

/// Where in the message a tag's value sits: right after the first
/// occurrence of `tag=`, up to the first frame terminator that follows.
pub open spec fn spec_extract(m: Seq<char>, tag: Seq<char>) -> Option<Seq<char>> {
    let pat = tag + seq!['='];
    let p = find_pat_from(m, pat, 0);
    if p == -1 {
        None
    } else {
        let vs = p + pat.len();
        let q = find_char_from(m, frame_end(), vs);
        if q == -1 {
            None
        } else {
            Some(m.subrange(vs, q))
        }
    }
}

impl FixMessage {
    /// Builds the order the message carries, under the caller's id, or
    /// nothing when a required field is missing or unreadable.
    pub fn to_order(&self, id: u32) -> (r: Option<Order>)
        requires
            self.wf(),
        ensures
            match r {
                Some(o) => spec_to_order(self@, id) == Some(o@),
                None => spec_to_order(self@, id) is None,
            },
    {
        let sym = match self.get_field(FixTag::Symbol) {
            None => {
                return None;
            },
            Some(s) => s,
        };
        let qty = match self.get_field(FixTag::OrderQty) {
            None => {
                return None;
            },
            Some(q) => {
                let qc = chars_of(q.as_str());
                match crate::numparse::parse_u32(&qc) {
                    None => {
                        return None;
                    },
                    Some(v) => v,
                }
            },
        };
        let price = match self.get_field(FixTag::Price) {
            None => {
                return None;
            },
            Some(p) => {
                let pc = chars_of(p.as_str());
                match crate::numparse::parse_price(&pc) {
                    None => {
                        return None;
                    },
                    Some(v) => v,
                }
            },
        };
        let side = match self.get_field(FixTag::Side) {
            None => {
                return None;
            },
            Some(sd) => {
                let sc = chars_of(sd.as_str());
                match crate::numparse::parse_u32(&sc) {
                    None => {
                        return None;
                    },
                    Some(v) => {
                        if v == 1 {
                            Side::Buy
                        } else if v == 2 {
                            Side::Sell
                        } else {
                            return None;
                        }
                    },
                }
            },
        };
        Some(Order::new(id, sym.as_str(), qty, price, side))
    }

    /// The value that follows the first `tag=` in the raw text, ending at
    /// the first frame terminator after it; nothing when either is absent.
    pub fn extract_tag_value<'a>(message: &'a str, tag: &'a str) -> (r: Option<&'a str>)
        ensures
            match r {
                Some(v) => spec_extract(message@, tag@) == Some(v@),
                None => spec_extract(message@, tag@) is None,
            },
    {
        let mchars = chars_of(message);
        let mut pat = chars_of(tag);
        pat.push('=');
        proof {
            assert(pat@ =~= tag@ + seq!['=']);
        }
        let n = mchars.len();
        match find_pat_exec(&mchars, &pat, 0) {
            None => None,
            Some(p) => {
                let vs = p + pat.len();
                match find_char_exec(&mchars, '\u{1}', vs) {
                    None => None,
                    Some(q) => {
                        let v = message.substring_char(vs, q);
                        proof {
                            assert(v@ =~= message@.subrange(vs as int, q as int));
                        }
                        Some(v)
                    },
                }
            },
        }
    }
}

/// A field value that survives framing: free of the separator, of `=`, and
/// of the frame terminator.
pub open spec fn value_clean(o: Option<Seq<char>>) -> bool {
    match o {
        Some(v) => forall|i: int|
            0 <= i < v.len() ==> v[i] != field_sep() && v[i] != '=' && v[i] != frame_end(),
        None => true,
    }
}

/// The encoded fields with rank at or above `i`, concatenated.
pub open spec fn enc_from(fs: Seq<Option<Seq<char>>>, i: int) -> Seq<char>
    decreases TAG_COUNT - i,
{
    if i < 0 || i >= TAG_COUNT {
        Seq::empty()
    } else {
        field_text(fs, i) + enc_from(fs, i + 1)
    }
}

/// The wire tokens for the fields with rank at or above `i`, in order.
pub open spec fn toks_from(fs: Seq<Option<Seq<char>>>, i: int) -> Seq<Seq<char>>
    decreases TAG_COUNT - i,
{
    if i < 0 || i >= TAG_COUNT {
        Seq::empty()
    } else {
        match fs[i] {
            Some(v) => seq![spec_wire(spec_tag_of_rank(i)) + seq!['='] + v] + toks_from(
                fs,
                i + 1,
            ),
            None => toks_from(fs, i + 1),
        }
    }
}

/// The whole encoding is any prefix followed by the matching suffix.
proof fn lemma_enc_upto_from(fs: Seq<Option<Seq<char>>>, i: int)
    requires
        0 <= i <= TAG_COUNT,
    ensures
        enc_upto(fs, TAG_COUNT as int) == enc_upto(fs, i) + enc_from(fs, i),
    decreases TAG_COUNT - i,
{
    if i == TAG_COUNT {
        assert(enc_upto(fs, i) + enc_from(fs, i) =~= enc_upto(fs, TAG_COUNT as int));
    } else {
        lemma_enc_upto_from(fs, i + 1);
        assert(enc_upto(fs, i + 1) == enc_upto(fs, i) + field_text(fs, i));
        assert(enc_upto(fs, i) + field_text(fs, i) + enc_from(fs, i + 1) =~= enc_upto(fs, i) + (
        field_text(fs, i) + enc_from(fs, i + 1)));
    }
}

/// Every wire tag string is non-empty, avoids the frame characters, and
/// parses back to its own tag.
#[verifier::rlimit(60)]
proof fn lemma_wire_ok(t: FixTag)
    ensures
        spec_wire(t).len() >= 1,
        forall|i: int|
            0 <= i < spec_wire(t).len() ==> spec_wire(t)[i] != field_sep() && spec_wire(t)[i]
                != '=' && spec_wire(t)[i] != frame_end(),
        spec_parse_tag(spec_wire(t)) == Some(t),
{
    reveal_strlit("8");
    reveal_strlit("9");
    reveal_strlit("35");
    reveal_strlit("49");
    reveal_strlit("56");
    reveal_strlit("34");
    reveal_strlit("52");
    reveal_strlit("10");
    reveal_strlit("55");
    reveal_strlit("54");
    reveal_strlit("38");
    reveal_strlit("44");
    reveal_strlit("40");
    reveal_strlit("37");
    reveal_strlit("17");
    reveal_strlit("151");
    reveal_strlit("14");
    reveal_strlit("6");
    reveal_strlit("58");
    // the parse chain compares against every wire literal, so each one's
    // length and characters, and every pairwise distinction, must be on hand
    assert("8"@.len() == 1);
    assert("8"@[0] == '8');
    assert("9"@.len() == 1);
    assert("9"@[0] == '9');
    assert("35"@.len() == 2);
    assert("35"@[0] == '3');
    assert("35"@[1] == '5');
    assert("49"@.len() == 2);
    assert("49"@[0] == '4');
    assert("49"@[1] == '9');
    assert("56"@.len() == 2);
    assert("56"@[0] == '5');
    assert("56"@[1] == '6');
    assert("34"@.len() == 2);
    assert("34"@[0] == '3');
    assert("34"@[1] == '4');
    assert("52"@.len() == 2);
    assert("52"@[0] == '5');
    assert("52"@[1] == '2');
    assert("10"@.len() == 2);
    assert("10"@[0] == '1');
    assert("10"@[1] == '0');
    assert("55"@.len() == 2);
    assert("55"@[0] == '5');
    assert("55"@[1] == '5');
    assert("54"@.len() == 2);
    assert("54"@[0] == '5');
    assert("54"@[1] == '4');
    assert("38"@.len() == 2);
    assert("38"@[0] == '3');
    assert("38"@[1] == '8');
    assert("44"@.len() == 2);
    assert("44"@[0] == '4');
    assert("44"@[1] == '4');
    assert("40"@.len() == 2);
    assert("40"@[0] == '4');
    assert("40"@[1] == '0');
    assert("37"@.len() == 2);
    assert("37"@[0] == '3');
    assert("37"@[1] == '7');
    assert("17"@.len() == 2);
    assert("17"@[0] == '1');
    assert("17"@[1] == '7');
    assert("151"@.len() == 3);
    assert("151"@[0] == '1');
    assert("151"@[1] == '5');
    assert("151"@[2] == '1');
    assert("14"@.len() == 2);
    assert("14"@[0] == '1');
    assert("14"@[1] == '4');
    assert("6"@.len() == 1);
    assert("6"@[0] == '6');
    assert("58"@.len() == 2);
    assert("58"@[0] == '5');
    assert("58"@[1] == '8');
    assert("8"@ != "9"@);
    assert("8"@ != "35"@);
    assert("8"@ != "49"@);
    assert("8"@ != "56"@);
    assert("8"@ != "34"@);
    assert("8"@ != "52"@);
    assert("8"@ != "10"@);
    assert("8"@ != "55"@);
    assert("8"@ != "54"@);
    assert("8"@ != "38"@);
    assert("8"@ != "44"@);
    assert("8"@ != "40"@);
    assert("8"@ != "37"@);
    assert("8"@ != "17"@);
    assert("8"@ != "151"@);
    assert("8"@ != "14"@);
    assert("8"@ != "6"@);
    assert("8"@ != "58"@);
    assert("9"@ != "35"@);
    assert("9"@ != "49"@);
    assert("9"@ != "56"@);
    assert("9"@ != "34"@);
    assert("9"@ != "52"@);
    assert("9"@ != "10"@);
    assert("9"@ != "55"@);
    assert("9"@ != "54"@);
    assert("9"@ != "38"@);
    assert("9"@ != "44"@);
    assert("9"@ != "40"@);
    assert("9"@ != "37"@);
    assert("9"@ != "17"@);
    assert("9"@ != "151"@);
    assert("9"@ != "14"@);
    assert("9"@ != "6"@);
    assert("9"@ != "58"@);
    assert("35"@ != "49"@);
    assert("35"@ != "56"@);
    assert("35"@ != "34"@);
    assert("35"@ != "52"@);
    assert("35"@ != "10"@);
    assert("35"@ != "55"@);
    assert("35"@ != "54"@);
    assert("35"@ != "38"@);
    assert("35"@ != "44"@);
    assert("35"@ != "40"@);
    assert("35"@ != "37"@);
    assert("35"@ != "17"@);
    assert("35"@ != "151"@);
    assert("35"@ != "14"@);
    assert("35"@ != "6"@);
    assert("35"@ != "58"@);
    assert("49"@ != "56"@);
    assert("49"@ != "34"@);
    assert("49"@ != "52"@);
    assert("49"@ != "10"@);
    assert("49"@ != "55"@);
    assert("49"@ != "54"@);
    assert("49"@ != "38"@);
    assert("49"@ != "44"@);
    assert("49"@ != "40"@);
    assert("49"@ != "37"@);
    assert("49"@ != "17"@);
    assert("49"@ != "151"@);
    assert("49"@ != "14"@);
    assert("49"@ != "6"@);
    assert("49"@ != "58"@);
    assert("56"@ != "34"@);
    assert("56"@ != "52"@);
    assert("56"@ != "10"@);
    assert("56"@ != "55"@);
    assert("56"@ != "54"@);
    assert("56"@ != "38"@);
    assert("56"@ != "44"@);
    assert("56"@ != "40"@);
    assert("56"@ != "37"@);
    assert("56"@ != "17"@);
    assert("56"@ != "151"@);
    assert("56"@ != "14"@);
    assert("56"@ != "6"@);
    assert("56"@ != "58"@);
    assert("34"@ != "52"@);
    assert("34"@ != "10"@);
    assert("34"@ != "55"@);
    assert("34"@ != "54"@);
    assert("34"@ != "38"@);
    assert("34"@ != "44"@);
    assert("34"@ != "40"@);
    assert("34"@ != "37"@);
    assert("34"@ != "17"@);
    assert("34"@ != "151"@);
    assert("34"@ != "14"@);
    assert("34"@ != "6"@);
    assert("34"@ != "58"@);
    assert("52"@ != "10"@);
    assert("52"@ != "55"@);
    assert("52"@ != "54"@);
    assert("52"@ != "38"@);
    assert("52"@ != "44"@);
    assert("52"@ != "40"@);
    assert("52"@ != "37"@);
    assert("52"@ != "17"@);
    assert("52"@ != "151"@);
    assert("52"@ != "14"@);
    assert("52"@ != "6"@);
    assert("52"@ != "58"@);
    assert("10"@ != "55"@);
    assert("10"@ != "54"@);
    assert("10"@ != "38"@);
    assert("10"@ != "44"@);
    assert("10"@ != "40"@);
    assert("10"@ != "37"@);
    assert("10"@ != "17"@);
    assert("10"@ != "151"@);
    assert("10"@ != "14"@);
    assert("10"@ != "6"@);
    assert("10"@ != "58"@);
    assert("55"@ != "54"@);
    assert("55"@ != "38"@);
    assert("55"@ != "44"@);
    assert("55"@ != "40"@);
    assert("55"@ != "37"@);
    assert("55"@ != "17"@);
    assert("55"@ != "151"@);
    assert("55"@ != "14"@);
    assert("55"@ != "6"@);
    assert("55"@ != "58"@);
    assert("54"@ != "38"@);
    assert("54"@ != "44"@);
    assert("54"@ != "40"@);
    assert("54"@ != "37"@);
    assert("54"@ != "17"@);
    assert("54"@ != "151"@);
    assert("54"@ != "14"@);
    assert("54"@ != "6"@);
    assert("54"@ != "58"@);
    assert("38"@ != "44"@);
    assert("38"@ != "40"@);
    assert("38"@ != "37"@);
    assert("38"@ != "17"@);
    assert("38"@ != "151"@);
    assert("38"@ != "14"@);
    assert("38"@ != "6"@);
    assert("38"@ != "58"@);
    assert("44"@ != "40"@);
    assert("44"@ != "37"@);
    assert("44"@ != "17"@);
    assert("44"@ != "151"@);
    assert("44"@ != "14"@);
    assert("44"@ != "6"@);
    assert("44"@ != "58"@);
    assert("40"@ != "37"@);
    assert("40"@ != "17"@);
    assert("40"@ != "151"@);
    assert("40"@ != "14"@);
    assert("40"@ != "6"@);
    assert("40"@ != "58"@);
    assert("37"@ != "17"@);
    assert("37"@ != "151"@);
    assert("37"@ != "14"@);
    assert("37"@ != "6"@);
    assert("37"@ != "58"@);
    assert("17"@ != "151"@);
    assert("17"@ != "14"@);
    assert("17"@ != "6"@);
    assert("17"@ != "58"@);
    assert("151"@ != "14"@);
    assert("151"@ != "6"@);
    assert("151"@ != "58"@);
    assert("14"@ != "6"@);
    assert("14"@ != "58"@);
    assert("6"@ != "58"@);
    match t {
        FixTag::BeginString => assert(spec_parse_tag(spec_wire(t)) == Some(t)),
        FixTag::BodyLength => assert(spec_parse_tag(spec_wire(t)) == Some(t)),
        FixTag::MsgType => assert(spec_parse_tag(spec_wire(t)) == Some(t)),
        FixTag::SenderCompID => assert(spec_parse_tag(spec_wire(t)) == Some(t)),
        FixTag::TargetCompID => assert(spec_parse_tag(spec_wire(t)) == Some(t)),
        FixTag::MsgSeqNum => assert(spec_parse_tag(spec_wire(t)) == Some(t)),
        FixTag::SendingTime => assert(spec_parse_tag(spec_wire(t)) == Some(t)),
        FixTag::Symbol => assert(spec_parse_tag(spec_wire(t)) == Some(t)),
        FixTag::Side => assert(spec_parse_tag(spec_wire(t)) == Some(t)),
        FixTag::OrderQty => assert(spec_parse_tag(spec_wire(t)) == Some(t)),
        FixTag::Price => assert(spec_parse_tag(spec_wire(t)) == Some(t)),
        FixTag::OrdType => assert(spec_parse_tag(spec_wire(t)) == Some(t)),
        FixTag::OrderID => assert(spec_parse_tag(spec_wire(t)) == Some(t)),
        FixTag::ExecID => assert(spec_parse_tag(spec_wire(t)) == Some(t)),
        FixTag::LeavesQty => assert(spec_parse_tag(spec_wire(t)) == Some(t)),
        FixTag::CumQty => assert(spec_parse_tag(spec_wire(t)) == Some(t)),
        FixTag::AvgPx => assert(spec_parse_tag(spec_wire(t)) == Some(t)),
        FixTag::Text => assert(spec_parse_tag(spec_wire(t)) == Some(t)),
        FixTag::CheckSum => assert(spec_parse_tag(spec_wire(t)) == Some(t)),
    }
}

/// If the pattern occurs at `k` and nowhere before, the search finds `k`.
proof fn lemma_find_pat_at(m: Seq<char>, pat: Seq<char>, k: int)
    requires
        0 <= k,
        is_match_at(m, pat, k),
        forall|j: int| 0 <= j < k ==> !is_match_at(m, pat, j),
    ensures
        find_pat_from(m, pat, 0) == k,
{
    lemma_find_pat_from(m, pat, 0);
    let f = find_pat_from(m, pat, 0);
    if f == -1 {
    } else if f < k {
        assert(!is_match_at(m, pat, f));
    } else if f > k {
        assert(!is_match_at(m, pat, k));
    }
}

/// If the character sits at `k` and nowhere before, the search finds `k`.
proof fn lemma_find_char_at(s: Seq<char>, c: char, k: int)
    requires
        0 <= k < s.len(),
        s[k] == c,
        forall|j: int| 0 <= j < k ==> s[j] != c,
    ensures
        find_char_from(s, c, 0) == k,
{
    lemma_find_char_from(s, c, 0);
    let f = find_char_from(s, c, 0);
    if f == -1 {
    } else if f < k {
        assert(s[f] != c);
    } else if f > k {
        assert(s[k] != c);
    }
}

/// Splitting text that starts with a separator-free piece and its separator
/// peels that piece off the front.
proof fn lemma_split_head(t: Seq<char>, rest: Seq<char>)
    requires
        forall|i: int| 0 <= i < t.len() ==> t[i] != field_sep(),
    ensures
        split_spec(t + seq![field_sep()] + rest, seq![field_sep()]) == seq![t] + split_spec(
            rest,
            seq![field_sep()],
        ),
{
    let d = seq![field_sep()];
    let w = t + seq![field_sep()] + rest;
    assert(w[t.len() as int] == field_sep());
    assert(is_match_at(w, d, t.len() as int)) by {
        assert(w.subrange(t.len() as int, t.len() as int + 1) =~= d);
    }
    assert forall|j: int| 0 <= j < t.len() implies !is_match_at(w, d, j) by {
        if is_match_at(w, d, j) {
            assert(w.subrange(j, j + 1)[0] == d[0]);
            assert(w[j] == field_sep());
            assert(w[j] == t[j]);
        }
    }
    lemma_find_pat_at(w, d, t.len() as int);
    assert(w.take(t.len() as int) =~= t);
    assert(w.skip(t.len() as int + 1) =~= rest);
}

/// A frame terminator alone is one piece.
proof fn lemma_split_end()
    ensures
        split_spec(seq![frame_end()], seq![field_sep()]) == seq![seq![frame_end()]],
{
    let m = seq![frame_end()];
    let d = seq![field_sep()];
    assert(!is_match_at(m, d, 0)) by {
        if is_match_at(m, d, 0) {
            assert(m.subrange(0, 1)[0] == d[0]);
        }
    }
    lemma_find_pat_from(m, d, 0);
    if find_pat_from(m, d, 0) != -1 {
        assert(is_match_at(m, d, find_pat_from(m, d, 0)));
        assert(find_pat_from(m, d, 0) == 0);
    }
}

/// Splitting the encoded suffix from rank `i` yields exactly its tokens and
/// the closing terminator.
proof fn lemma_split_enc(fs: Seq<Option<Seq<char>>>, i: int)
    requires
        0 <= i <= TAG_COUNT,
        fs.len() == TAG_COUNT,
        forall|r: int| 0 <= r < fs.len() ==> value_clean(#[trigger] fs[r]),
    ensures
        split_spec(enc_from(fs, i) + seq![frame_end()], seq![field_sep()]) == toks_from(fs, i)
            + seq![seq![frame_end()]],
    decreases TAG_COUNT - i,
{
    if i == TAG_COUNT {
        assert(enc_from(fs, i) + seq![frame_end()] =~= seq![frame_end()]);
        lemma_split_end();
        assert(toks_from(fs, i) + seq![seq![frame_end()]] =~= seq![seq![frame_end()]]);
    } else {
        lemma_split_enc(fs, i + 1);
        match fs[i] {
            Some(v) => {
                let tag = spec_tag_of_rank(i);
                let t = spec_wire(tag) + seq!['='] + v;
                lemma_wire_ok(tag);
                assert(value_clean(fs[i]));
                assert forall|x: int| 0 <= x < t.len() implies t[x] != field_sep() by {
                    if x < spec_wire(tag).len() {
                        assert(t[x] == spec_wire(tag)[x]);
                    } else if x == spec_wire(tag).len() {
                        assert(t[x] == '=');
                    } else {
                        assert(t[x] == v[x - spec_wire(tag).len() - 1]);
                    }
                }
                lemma_split_head(t, enc_from(fs, i + 1) + seq![frame_end()]);
                assert(enc_from(fs, i) + seq![frame_end()] =~= t + seq![field_sep()] + (enc_from(
                    fs,
                    i + 1,
                ) + seq![frame_end()]));
                assert(toks_from(fs, i) + seq![seq![frame_end()]] =~= seq![t] + (toks_from(
                    fs,
                    i + 1,
                ) + seq![seq![frame_end()]]));
            },
            None => {
                assert(enc_from(fs, i) + seq![frame_end()] =~= enc_from(fs, i + 1) + seq![
                    frame_end()
                ]);
                assert(toks_from(fs, i) == toks_from(fs, i + 1));
            },
        }
    }
}

/// Folding from position `j` is folding the remaining tokens from zero.
proof fn lemma_apply_skip(x: Seq<Option<Seq<char>>>, toks: Seq<Seq<char>>, j: int)
    requires
        0 <= j <= toks.len(),
    ensures
        apply_tokens(x, toks, j) == apply_tokens(x, toks.skip(j), 0),
    decreases toks.len() - j,
{
    if j == toks.len() {
        assert(toks.skip(j).len() == 0);
    } else {
        let y = apply_token(x, toks[j]);
        lemma_apply_skip(y, toks, j + 1);
        assert(toks.skip(j)[0] == toks[j]);
        lemma_apply_skip(y, toks.skip(j), 1);
        assert(toks.skip(j).skip(1) =~= toks.skip(j + 1));
    }
}

/// The rank of the tag at a rank is that rank.
proof fn lemma_rank_of_rank(i: int)
    requires
        0 <= i < TAG_COUNT,
    ensures
        spec_rank(spec_tag_of_rank(i)) == i,
{
}

/// Folding the tokens from rank `i` onto a table that already agrees below
/// `i` (and is empty above) reproduces the whole field table.
proof fn lemma_apply_enc(fs: Seq<Option<Seq<char>>>, i: int, table: Seq<Option<Seq<char>>>)
    requires
        0 <= i <= TAG_COUNT,
        fs.len() == TAG_COUNT,
        table.len() == TAG_COUNT,
        forall|r: int| 0 <= r < fs.len() ==> value_clean(#[trigger] fs[r]),
        forall|r: int|
            0 <= r < TAG_COUNT ==> #[trigger] table[r] == (if r < i {
                fs[r]
            } else {
                None::<Seq<char>>
            }),
    ensures
        apply_tokens(table, toks_from(fs, i) + seq![seq![frame_end()]], 0) == fs,
    decreases TAG_COUNT - i,
{
    if i == TAG_COUNT {
        let whole = toks_from(fs, i) + seq![seq![frame_end()]];
        assert(whole =~= seq![seq![frame_end()]]);
        let tok = seq![frame_end()];
        assert(whole[0] == tok);
        lemma_find_char_from(tok, '=', 0);
        if find_char_from(tok, '=', 0) != -1 {
            assert(tok[find_char_from(tok, '=', 0)] == '=');
        }
        assert(apply_token(table, tok) == table);
        assert(apply_tokens(table, whole, 0) == apply_tokens(apply_token(table, tok), whole, 1));
        assert(apply_tokens(table, whole, 1) == table);
        assert(table =~= fs);
    } else {
        match fs[i] {
            Some(v) => {
                let tag = spec_tag_of_rank(i);
                let wire = spec_wire(tag);
                let t = wire + seq!['='] + v;
                let whole = toks_from(fs, i) + seq![seq![frame_end()]];
                assert(toks_from(fs, i) == seq![t] + toks_from(fs, i + 1));
                assert(whole[0] == t);
                lemma_wire_ok(tag);
                // exactly one '=' sits right after the wire tag
                assert(t[wire.len() as int] == '=');
                assert forall|j: int| 0 <= j < wire.len() implies t[j] != '=' by {
                    assert(t[j] == wire[j]);
                }
                lemma_find_char_at(t, '=', wire.len() as int);
                lemma_find_char_from(t, '=', wire.len() as int + 1);
                if find_char_from(t, '=', wire.len() as int + 1) != -1 {
                    let f = find_char_from(t, '=', wire.len() as int + 1);
                    assert(t[f] == '=');
                    assert(t[f] == v[f - wire.len() - 1]);
                    assert(value_clean(fs[i]));
                    assert(false);
                }
                assert(t.take(wire.len() as int) =~= wire);
                assert(t.skip(wire.len() as int + 1) =~= v);
                lemma_rank_of_rank(i);
                let table2 = table.update(i, Some(v));
                assert(apply_token(table, t) == table2);
                assert(apply_tokens(table, whole, 0) == apply_tokens(table2, whole, 1));
                lemma_apply_skip(table2, whole, 1);
                assert(whole.skip(1) =~= toks_from(fs, i + 1) + seq![seq![frame_end()]]);
                lemma_apply_enc(fs, i + 1, table2);
            },
            None => {
                assert(toks_from(fs, i) == toks_from(fs, i + 1));
                assert forall|r: int|
                    0 <= r < TAG_COUNT implies #[trigger] table[r] == (if r < i + 1 {
                    fs[r]
                } else {
                    None::<Seq<char>>
                }) by {
                    if r == i {
                        assert(fs[i] is None);
                    }
                }
                lemma_apply_enc(fs, i + 1, table);
            },
        }
    }
}

/// Law: decoding an encoded frame with its own field delimiter reads back
/// every field exactly as it stood when the frame was written — in
/// particular, re-encoding a decoded frame reproduces every field except
/// `SendingTime`, which `encode` stamps afresh (with a value that is itself
/// clean, by `get_time`'s contract). The fields must be free of the frame's
/// own characters, which every value written by this codec's own `encode`
/// (including the stamped time) is.
pub proof fn lemma_encode_decode_round_trip(fs: Seq<Option<Seq<char>>>)
    requires
        fs.len() == TAG_COUNT,
        forall|r: int| 0 <= r < fs.len() ==> value_clean(#[trigger] fs[r]),
    ensures
        spec_decode(spec_encode(fs), "|"@) == fs,
{
    reveal_strlit("|");
    assert("|"@ =~= seq![field_sep()]);
    let d = seq![field_sep()];
    lemma_enc_upto_from(fs, 0);
    let enc = spec_encode(fs);
    assert(enc =~= enc_from(fs, 0) + seq![frame_end()]);
    assert(enc.len() >= 1);
    assert(enc[enc.len() - 1] == frame_end());
    assert(trim_end(enc, d) == enc) by {
        assert(enc.subrange(enc.len() - 1, enc.len() as int)[0] == frame_end());
        if enc.subrange(enc.len() - d.len(), enc.len() as int) == d {
            assert(enc.subrange(enc.len() - 1, enc.len() as int)[0] == d[0]);
        }
    }
    lemma_split_enc(fs, 0);
    assert(split_spec(enc, d) == toks_from(fs, 0) + seq![seq![frame_end()]]);
    lemma_apply_enc(fs, 0, empty_fields());
    assert(empty_fields().len() == TAG_COUNT);
    assert(spec_decode(enc, "|"@) == fs);
}

/// How many of the slots with rank below `i` hold a value.
pub open spec fn count_fields(fs: Seq<Option<Seq<char>>>, i: int) -> int
    decreases i,
{
    if i <= 0 {
        0
    } else {
        count_fields(fs, i - 1) + if fs[i - 1] is Some {
            1int
        } else {
            0int
        }
    }
}

} // verus!
