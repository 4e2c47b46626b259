//! Reading JMdict: the entry state machine over XML events, the kana and
//! language-code normalisation it applies.
use vstd::prelude::*;
use vstd::utf8::{char_u32_cast, decode_utf8, valid_utf8};
use crate::text::{
    chars_of, contains_string, join, join_with, lemma_trim_idempotent, opt_view, pairs_view, parse_i64,
    spec_parse_i64, spec_trim, string_of, strings_view, sub_vec, trim, utf8_decode,
};

verus! {

/// `char::from_u32`: the character with code point `v`, when there is one.
/// Assumed of the std function: it succeeds exactly on the Unicode scalar
/// values (below 0xD800, or from 0xE000 to 0x10FFFF) and yields the character
/// with that code.
#[verifier::external_body]
fn char_from_u32(v: u32) -> (res: Option<char>)
    ensures
        res is Some <==> (v < 0xD800 || (0xE000 <= v && v <= 0x10FFFF)),
        res matches Some(c) ==> c as u32 == v,
{
    char::from_u32(v)
}

/// A katakana letter (ァ U+30A1 to ヶ U+30F6) as the hiragana letter 0x60
/// code points below it; any other character unchanged.
pub open spec fn hiragana_of(c: char) -> char {
    if '\u{30A1}' <= c && c <= '\u{30F6}' {
        ((c as u32) - 0x60) as char
    } else {
        c
    }
}

/// The text with each katakana letter replaced by its hiragana letter.
pub open spec fn spec_katakana_to_hiragana(s: Seq<char>) -> Seq<char> {
    s.map_values(|c: char| hiragana_of(c))
}

/// Converts katakana letters (U+30A1 to U+30F6) to hiragana.
pub fn katakana_to_hiragana(s: &str) -> (out: String)
    ensures
        out@ == spec_katakana_to_hiragana(s@),
        out@.len() == s@.len(),
        forall|i: int|
            0 <= i < s@.len() ==> if '\u{30A1}' <= s@[i] && s@[i] <= '\u{30F6}' {
                (#[trigger] out@[i]) as u32 == s@[i] as u32 - 0x60
            } else {
                out@[i] == s@[i]
            },
{
    proof {
        lemma_katakana_code_points(s@);
    }
    let cs = chars_of(s);
    let mut out: Vec<char> = Vec::new();
    for i in 0..cs.len()
        invariant
            out@ == spec_katakana_to_hiragana(cs@.take(i as int)),
    {
        let c = cs[i];
        let h = if '\u{30A1}' <= c && c <= '\u{30F6}' {
            match char_from_u32(c as u32 - 0x60) {
                Some(h) => h,
                None => c,
            }
        } else {
            c
        };
        proof {
            if '\u{30A1}' <= c && c <= '\u{30F6}' {
                char_u32_cast(h, (c as u32 - 0x60) as u32);
            }
        }
        assert(h == hiragana_of(c));
        out.push(h);
        assert(spec_katakana_to_hiragana(cs@.take(i + 1)) =~= spec_katakana_to_hiragana(
            cs@.take(i as int),
        ).push(hiragana_of(c)));
    }
    assert(cs@.take(cs.len() as int) == cs@);
    string_of(&out)
}



/// Each katakana letter (U+30A1 to U+30F6) becomes the character 0x60 code
/// points below it, and every other character stays as it is.
pub proof fn lemma_katakana_code_points(s: Seq<char>)
    ensures
        spec_katakana_to_hiragana(s).len() == s.len(),
        forall|i: int|
            0 <= i < s.len() ==> if '\u{30A1}' <= s[i] && s[i] <= '\u{30F6}' {
                (#[trigger] spec_katakana_to_hiragana(s)[i]) as u32 == s[i] as u32 - 0x60
            } else {
                spec_katakana_to_hiragana(s)[i] == s[i]
            },
{
    assert forall|i: int| 0 <= i < s.len() implies if '\u{30A1}' <= s[i] && s[i] <= '\u{30F6}' {
        (#[trigger] spec_katakana_to_hiragana(s)[i]) as u32 == s[i] as u32 - 0x60
    } else {
        spec_katakana_to_hiragana(s)[i] == s[i]
    } by {
        let c = s[i];
        if '\u{30A1}' <= c && c <= '\u{30F6}' {
            let v = ((c as u32) - 0x60) as u32;
            assert(0x3041 <= v <= 0x3096);
            assert((v as char) as u32 == v);
        }
    }
}

/// No katakana letter is left after the conversion, so converting twice is
/// converting once.
pub proof fn lemma_katakana_to_hiragana_idempotent(s: Seq<char>)
    ensures
        forall|i: int|
            0 <= i < s.len() ==> !('\u{30A1}' <= #[trigger] spec_katakana_to_hiragana(s)[i]
                && spec_katakana_to_hiragana(s)[i] <= '\u{30F6}'),
        spec_katakana_to_hiragana(spec_katakana_to_hiragana(s)) == spec_katakana_to_hiragana(s),
{
    assert forall|i: int| 0 <= i < s.len() implies !('\u{30A1}' <= #[trigger] spec_katakana_to_hiragana(
        s,
    )[i] && spec_katakana_to_hiragana(s)[i] <= '\u{30F6}') by {
        let c = s[i];
        if '\u{30A1}' <= c && c <= '\u{30F6}' {
            let v = ((c as u32) - 0x60) as u32;
            assert(0x3041 <= v <= 0x3096);
            assert((v as char) as u32 == v);
        }
    }
    assert(spec_katakana_to_hiragana(spec_katakana_to_hiragana(s)) =~= spec_katakana_to_hiragana(s));
}

/// Mapping a language code twice is mapping it once.
pub proof fn lemma_map_lang_idempotent(raw: Seq<char>)
    ensures
        spec_map_lang(spec_map_lang(raw)) == spec_map_lang(raw),
{
    reveal_strlit("ger");
    reveal_strlit("de");
    reveal_strlit("fre");
    reveal_strlit("fra");
    reveal_strlit("fr");
    reveal_strlit("dut");
    reveal_strlit("nld");
    reveal_strlit("nl");
    reveal_strlit("spa");
    reveal_strlit("es");
    reveal_strlit("hun");
    reveal_strlit("hu");
    reveal_strlit("rus");
    reveal_strlit("ru");
    reveal_strlit("slv");
    reveal_strlit("sl");
    reveal_strlit("eng");
    reveal_strlit("en");
}

/// JMdict's three-letter language codes as two-letter codes; any other code
/// unchanged.
pub open spec fn spec_map_lang(raw: Seq<char>) -> Seq<char> {
    if raw == "ger"@ {
        "de"@
    } else if raw == "fre"@ || raw == "fra"@ {
        "fr"@
    } else if raw == "dut"@ || raw == "nld"@ {
        "nl"@
    } else if raw == "spa"@ {
        "es"@
    } else if raw == "hun"@ {
        "hu"@
    } else if raw == "rus"@ {
        "ru"@
    } else if raw == "slv"@ {
        "sl"@
    } else if raw == "eng"@ {
        "en"@
    } else {
        raw
    }
}

/// Maps JMdict's three-letter language codes to two-letter ones.
pub fn map_lang(raw: &str) -> (out: &str)
    ensures
        out@ == spec_map_lang(raw@),
{
    if raw.eq("ger") {
        "de"
    } else if raw.eq("fre") || raw.eq("fra") {
        "fr"
    } else if raw.eq("dut") || raw.eq("nld") {
        "nl"
    } else if raw.eq("spa") {
        "es"
    } else if raw.eq("hun") {
        "hu"
    } else if raw.eq("rus") {
        "ru"
    } else if raw.eq("slv") {
        "sl"
    } else if raw.eq("eng") {
        "en"
    } else {
        raw
    }
}


/// The value `quick_xml::escape::unescape` gives for a text: the text with its
/// predefined XML entities and character references replaced, or nothing
/// when an entity is unknown or unterminated.
pub uninterp spec fn xml_unescape(raw: Seq<char>) -> Option<Seq<char>>;

/// Replaces the XML escapes of `raw` with `quick_xml::escape::unescape`.
/// Assumed of it: the result is `xml_unescape(raw)`, and a text without `&`
/// comes back unchanged (its source returns the input itself when it finds
/// no `&`).
#[verifier::external_body]
fn unescape_xml(raw: &str) -> (res: Option<String>)
    ensures
        opt_view(res) == xml_unescape(raw@),
        raw@.contains('&') || opt_view(res) == Some(raw@),
{
    match quick_xml::escape::unescape(raw) {
        Ok(text) => Some(text.into_owned()),
        Err(_) => None,
    }
}

/// The text of a text event: its bytes decoded as UTF-8 and unescaped, as
/// quick-xml's `BytesText::unescape` gives it; nothing when either fails.
pub open spec fn decoded_text(raw: Seq<u8>) -> Option<Seq<char>> {
    if valid_utf8(raw) {
        xml_unescape(decode_utf8(raw))
    } else {
        None
    }
}

/// Decodes and unescapes the bytes of a text event.
pub fn decode_text(raw: &Vec<u8>) -> (res: Option<String>)
    ensures
        opt_view(res) == decoded_text(raw@),
{
    match utf8_decode(raw.as_slice()) {
        Some(s) => unescape_xml(s.as_str()),
        None => None,
    }
}

/// The JMdict elements the reader follows.
#[derive(PartialEq, Eq, Structural, Clone, Copy, Debug)]
pub enum Tag {
    Entry,
    EntSeq,
    KEle,
    Keb,
    REle,
    Reb,
    Sense,
    Pos,
    Gloss,
    Other,
}

/// The element name of each tag.
pub open spec fn tag_name(t: Tag) -> Seq<u8> {
    match t {
        Tag::Entry => seq![101u8, 110u8, 116u8, 114u8, 121u8],
        Tag::EntSeq => seq![101u8, 110u8, 116u8, 95u8, 115u8, 101u8, 113u8],
        Tag::KEle => seq![107u8, 95u8, 101u8, 108u8, 101u8],
        Tag::Keb => seq![107u8, 101u8, 98u8],
        Tag::REle => seq![114u8, 95u8, 101u8, 108u8, 101u8],
        Tag::Reb => seq![114u8, 101u8, 98u8],
        Tag::Sense => seq![115u8, 101u8, 110u8, 115u8, 101u8],
        Tag::Pos => seq![112u8, 111u8, 115u8],
        Tag::Gloss => seq![103u8, 108u8, 111u8, 115u8, 115u8],
        Tag::Other => seq![],
    }
}

/// The tag an element name stands for.
pub open spec fn spec_tag_of(name: Seq<u8>) -> Tag {
    if name == tag_name(Tag::Entry) {
        Tag::Entry
    } else if name == tag_name(Tag::EntSeq) {
        Tag::EntSeq
    } else if name == tag_name(Tag::KEle) {
        Tag::KEle
    } else if name == tag_name(Tag::Keb) {
        Tag::Keb
    } else if name == tag_name(Tag::REle) {
        Tag::REle
    } else if name == tag_name(Tag::Reb) {
        Tag::Reb
    } else if name == tag_name(Tag::Sense) {
        Tag::Sense
    } else if name == tag_name(Tag::Pos) {
        Tag::Pos
    } else if name == tag_name(Tag::Gloss) {
        Tag::Gloss
    } else {
        Tag::Other
    }
}

fn bytes_are(name: &Vec<u8>, lit: &[u8]) -> (b: bool)
    ensures
        b == (name@ == lit@),
{
    if name.len() != lit.len() {
        return false;
    }
    for i in 0..name.len()
        invariant
            name.len() == lit@.len(),
            forall|j: int| 0 <= j < i ==> name@[j] == lit@[j],
    {
        if name[i] != lit[i] {
            return false;
        }
    }
    assert(name@ =~= lit@);
    true
}

/// The tag of an element name.
pub fn tag_of(name: &Vec<u8>) -> (t: Tag)
    ensures
        t == spec_tag_of(name@),
{
    let entry: [u8; 5] = [101u8, 110u8, 116u8, 114u8, 121u8];
    let ent_seq: [u8; 7] = [101u8, 110u8, 116u8, 95u8, 115u8, 101u8, 113u8];
    let k_ele: [u8; 5] = [107u8, 95u8, 101u8, 108u8, 101u8];
    let keb: [u8; 3] = [107u8, 101u8, 98u8];
    let r_ele: [u8; 5] = [114u8, 95u8, 101u8, 108u8, 101u8];
    let reb: [u8; 3] = [114u8, 101u8, 98u8];
    let sense: [u8; 5] = [115u8, 101u8, 110u8, 115u8, 101u8];
    let pos: [u8; 3] = [112u8, 111u8, 115u8];
    let gloss: [u8; 5] = [103u8, 108u8, 111u8, 115u8, 115u8];
    assert(entry@ =~= tag_name(Tag::Entry));
    assert(ent_seq@ =~= tag_name(Tag::EntSeq));
    assert(k_ele@ =~= tag_name(Tag::KEle));
    assert(keb@ =~= tag_name(Tag::Keb));
    assert(r_ele@ =~= tag_name(Tag::REle));
    assert(reb@ =~= tag_name(Tag::Reb));
    assert(sense@ =~= tag_name(Tag::Sense));
    assert(pos@ =~= tag_name(Tag::Pos));
    assert(gloss@ =~= tag_name(Tag::Gloss));
    if bytes_are(name, entry.as_slice()) {
        Tag::Entry
    } else if bytes_are(name, ent_seq.as_slice()) {
        Tag::EntSeq
    } else if bytes_are(name, k_ele.as_slice()) {
        Tag::KEle
    } else if bytes_are(name, keb.as_slice()) {
        Tag::Keb
    } else if bytes_are(name, r_ele.as_slice()) {
        Tag::REle
    } else if bytes_are(name, reb.as_slice()) {
        Tag::Reb
    } else if bytes_are(name, sense.as_slice()) {
        Tag::Sense
    } else if bytes_are(name, pos.as_slice()) {
        Tag::Pos
    } else if bytes_are(name, gloss.as_slice()) {
        Tag::Gloss
    } else {
        Tag::Other
    }
}

/// An XML event of the JMdict file, as the reader hands it over: element
/// names and text as raw bytes, and for a start tag the raw value of its
/// `xml:lang` attribute when it has one.
pub enum XmlEvent {
    Start { name: Vec<u8>, lang: Option<Vec<u8>> },
    End { name: Vec<u8> },
    Text { raw: Vec<u8> },
    Eof,
    Error,
    Other,
}

/// An XML event as the state machine sees it.
pub enum EventView {
    Start(Tag, Option<Seq<u8>>),
    End(Tag),
    Text(Seq<u8>),
    Eof,
    Error,
    Other,
}

impl XmlEvent {
    pub open spec fn view(&self) -> EventView {
        match self {
            XmlEvent::Start { name, lang } => EventView::Start(
                spec_tag_of(name@),
                match lang {
                    Some(l) => Some(l@),
                    None => None,
                },
            ),
            XmlEvent::End { name } => EventView::End(spec_tag_of(name@)),
            XmlEvent::Text { raw } => EventView::Text(raw@),
            XmlEvent::Eof => EventView::Eof,
            XmlEvent::Error => EventView::Error,
            XmlEvent::Other => EventView::Other,
        }
    }
}

/// Where in an entry the reader stands.
pub enum ParseState {
    Root,
    Entry,
    EntrySeq,
    KEle,
    KEleKeb,
    REle,
    REleReb,
    Sense,
    SensePos,
    SenseGloss(String),
}

/// A reader position, the gloss language as characters.
pub enum StateView {
    Root,
    Entry,
    EntrySeq,
    KEle,
    KEleKeb,
    REle,
    REleReb,
    Sense,
    SensePos,
    SenseGloss(Seq<char>),
}

impl ParseState {
    pub open spec fn view(&self) -> StateView {
        match self {
            ParseState::Root => StateView::Root,
            ParseState::Entry => StateView::Entry,
            ParseState::EntrySeq => StateView::EntrySeq,
            ParseState::KEle => StateView::KEle,
            ParseState::KEleKeb => StateView::KEleKeb,
            ParseState::REle => StateView::REle,
            ParseState::REleReb => StateView::REleReb,
            ParseState::Sense => StateView::Sense,
            ParseState::SensePos => StateView::SensePos,
            ParseState::SenseGloss(l) => StateView::SenseGloss(l@),
        }
    }
}

/// A dictionary entry ready to be stored: its sequence number, its headword
/// (first kanji form, else first reading), its first reading in hiragana,
/// its part-of-speech codes joined with `,`, and its glosses as
/// (language, meaning) pairs.
pub struct WordRecord {
    pub id: i64,
    pub word: String,
    pub word_kana: String,
    pub pos: Option<String>,
    pub glosses: Vec<(String, String)>,
}

pub struct RecordView {
    pub id: i64,
    pub word: Seq<char>,
    pub word_kana: Seq<char>,
    pub pos: Option<Seq<char>>,
    pub glosses: Seq<(Seq<char>, Seq<char>)>,
}

impl WordRecord {
    pub open spec fn view(&self) -> RecordView {
        RecordView {
            id: self.id,
            word: self.word@,
            word_kana: self.word_kana@,
            pos: opt_view(self.pos),
            glosses: pairs_view(self.glosses@),
        }
    }
}

/// What the reader asks for after an event.
pub enum StepResult {
    /// Nothing to do.
    Continue,
    /// Store the entry; when `commit` is set, the entries so far are to be
    /// committed (every ten thousand entries).
    Insert { record: WordRecord, commit: bool },
    /// The document ended or could not be read further.
    Finish,
}

pub enum StepView {
    Continue,
    Insert(RecordView, bool),
    Finish,
}

impl StepResult {
    pub open spec fn view(&self) -> StepView {
        match self {
            StepResult::Continue => StepView::Continue,
            StepResult::Insert { record, commit } => StepView::Insert(record@, *commit),
            StepResult::Finish => StepView::Finish,
        }
    }
}

/// What the reader holds of the entry being read.
pub struct ParserView {
    pub state: StateView,
    pub entry_id: i64,
    pub kanji: Seq<Seq<char>>,
    pub kana: Seq<Seq<char>>,
    pub pos_set: Seq<Seq<char>>,
    pub glosses: Seq<(Seq<char>, Seq<char>)>,
    pub count: nat,
}

/// The language of a `<gloss>`: its `xml:lang` attribute decoded and mapped
/// to a two-letter code; English when it has none, and the attribute taken
/// as English when it is not UTF-8.
pub open spec fn gloss_lang(lang: Option<Seq<u8>>) -> Seq<char> {
    match lang {
        None => "en"@,
        Some(b) => if valid_utf8(b) {
            spec_map_lang(decode_utf8(b))
        } else {
            spec_map_lang("en"@)
        },
    }
}

/// The state a start tag leads to, when it leads anywhere.
pub open spec fn state_after_start(s: StateView, t: Tag, lang: Option<Seq<u8>>) -> Option<StateView> {
    match (t, s) {
        (Tag::Entry, StateView::Root) => Some(StateView::Entry),
        (Tag::EntSeq, StateView::Entry) => Some(StateView::EntrySeq),
        (Tag::KEle, StateView::Entry) => Some(StateView::KEle),
        (Tag::Keb, StateView::KEle) => Some(StateView::KEleKeb),
        (Tag::REle, StateView::Entry) => Some(StateView::REle),
        (Tag::Reb, StateView::REle) => Some(StateView::REleReb),
        (Tag::Sense, StateView::Entry) => Some(StateView::Sense),
        (Tag::Pos, StateView::Sense) => Some(StateView::SensePos),
        (Tag::Gloss, StateView::Sense) => Some(StateView::SenseGloss(gloss_lang(lang))),
        _ => None,
    }
}

/// The state an end tag leads to, whatever the state was.
pub open spec fn state_after_end(t: Tag) -> Option<StateView> {
    match t {
        Tag::Entry => Some(StateView::Root),
        Tag::EntSeq => Some(StateView::Entry),
        Tag::KEle => Some(StateView::Entry),
        Tag::Keb => Some(StateView::KEle),
        Tag::REle => Some(StateView::Entry),
        Tag::Reb => Some(StateView::REle),
        Tag::Sense => Some(StateView::Entry),
        Tag::Pos => Some(StateView::Sense),
        Tag::Gloss => Some(StateView::Sense),
        Tag::Other => None,
    }
}

/// The part-of-speech code in the raw text of a `<pos>`: the bytes decoded
/// (nothing when they are not UTF-8), trimmed, and an entity reference
/// `&code;` reduced to `code`.
pub open spec fn pos_code(raw: Seq<u8>) -> Seq<char> {
    let t = spec_trim(if valid_utf8(raw) { decode_utf8(raw) } else { seq![] });
    if t.len() >= 2 && t[0] == '&' && t.last() == ';' {
        t.subrange(1, t.len() - 1)
    } else {
        t
    }
}

/// The number a text gives as entry sequence, zero when it is none.
pub open spec fn entry_number(t: Seq<char>) -> i64 {
    match spec_parse_i64(spec_trim(t)) {
        Some(v) => v,
        None => 0,
    }
}

/// The entry the reader has gathered, as it is stored.
pub open spec fn record_of(p: ParserView) -> RecordView {
    RecordView {
        id: p.entry_id,
        word: if p.kanji.len() > 0 {
            p.kanji[0]
        } else if p.kana.len() > 0 {
            p.kana[0]
        } else {
            seq![]
        },
        word_kana: if p.kana.len() > 0 {
            spec_katakana_to_hiragana(p.kana[0])
        } else {
            seq![]
        },
        pos: if p.pos_set.len() == 0 {
            None
        } else {
            Some(join_with(p.pos_set, seq![',']))
        },
        glosses: p.glosses,
    }
}

/// What a text event does in the given state, given its text as decoded and
/// unescaped (`decoded`) and its raw bytes: the sequence number, a kanji form
/// or a reading is taken from the text, a part-of-speech code from the raw
/// bytes, a gloss from the trimmed text when it is not empty.
pub open spec fn after_decoded_text(p: ParserView, decoded: Option<Seq<char>>, raw: Seq<u8>) -> ParserView {
    match p.state {
        StateView::EntrySeq => match decoded {
            Some(t) => ParserView { entry_id: entry_number(t), ..p },
            None => p,
        },
        StateView::KEleKeb => match decoded {
            Some(t) => ParserView { kanji: p.kanji.push(t), ..p },
            None => p,
        },
        StateView::REleReb => match decoded {
            Some(t) => ParserView { kana: p.kana.push(t), ..p },
            None => p,
        },
        StateView::SensePos => {
            let code = pos_code(raw);
            if code.len() > 0 && !p.pos_set.contains(code) {
                ParserView { pos_set: p.pos_set.push(code), ..p }
            } else {
                p
            }
        },
        StateView::SenseGloss(lang) => match decoded {
            Some(t) => if spec_trim(t).len() > 0 {
                ParserView { glosses: p.glosses.push((lang, spec_trim(t))), ..p }
            } else {
                p
            },
            None => p,
        },
        _ => p,
    }
}

/// What a text event does in the given state.
pub open spec fn after_text(p: ParserView, raw: Seq<u8>) -> ParserView {
    after_decoded_text(p, decoded_text(raw), raw)
}

/// One step of the reader: its next position and what it asks for.
pub open spec fn next_step(p: ParserView, ev: EventView) -> (ParserView, StepView) {
    match ev {
        EventView::Start(t, lang) => match state_after_start(p.state, t, lang) {
            Some(s) => if t == Tag::Entry {
                (
                    ParserView {
                        state: s,
                        entry_id: 0,
                        kanji: seq![],
                        kana: seq![],
                        pos_set: seq![],
                        glosses: seq![],
                        count: p.count,
                    },
                    StepView::Continue,
                )
            } else {
                (ParserView { state: s, ..p }, StepView::Continue)
            },
            None => (p, StepView::Continue),
        },
        EventView::End(t) => if t == Tag::Entry {
            (
                ParserView { state: StateView::Root, count: p.count + 1, ..p },
                StepView::Insert(record_of(p), (p.count + 1) % 10000 == 0),
            )
        } else {
            match state_after_end(t) {
                Some(s) => (ParserView { state: s, ..p }, StepView::Continue),
                None => (p, StepView::Continue),
            }
        },
        EventView::Text(raw) => (after_text(p, raw), StepView::Continue),
        EventView::Eof => (p, StepView::Finish),
        EventView::Error => (p, StepView::Finish),
        EventView::Other => (p, StepView::Continue),
    }
}


/// The reader after the events, one after another.
pub open spec fn run_events(p: ParserView, evs: Seq<EventView>) -> ParserView
    decreases evs.len(),
{
    if evs.len() == 0 {
        p
    } else {
        run_events(next_step(p, evs[0]).0, evs.drop_first())
    }
}

/// An event that neither starts nor ends an entry.
pub open spec fn within_entry(ev: EventView) -> bool {
    &&& !(ev matches EventView::Start(t, _) && t == Tag::Entry)
    &&& ev != EventView::End(Tag::Entry)
}

proof fn lemma_run_concat(p: ParserView, a: Seq<EventView>, b: Seq<EventView>)
    ensures
        run_events(p, a + b) == run_events(run_events(p, a), b),
    decreases a.len(),
{
    if a.len() > 0 {
        assert((a + b)[0] == a[0]);
        assert((a + b).drop_first() == a.drop_first() + b);
        lemma_run_concat(next_step(p, a[0]).0, a.drop_first(), b);
    } else {
        assert(a + b == b);
    }
}

proof fn lemma_first_kanji_stays(p: ParserView, evs: Seq<EventView>, k1: Seq<char>)
    requires
        p.kanji.len() > 0,
        p.kanji[0] == k1,
        forall|i: int| 0 <= i < evs.len() ==> within_entry(#[trigger] evs[i]),
    ensures
        run_events(p, evs).kanji.len() > 0,
        run_events(p, evs).kanji[0] == k1,
    decreases evs.len(),
{
    if evs.len() > 0 {
        let ev = evs[0];
        assert(within_entry(ev));
        let q = next_step(p, ev).0;
        match ev {
            EventView::Text(raw) => {
                let d = decoded_text(raw);
                if let StateView::KEleKeb = p.state {
                    if let Some(t) = d {
                        assert(q.kanji == p.kanji.push(t));
                    }
                }
                assert(q.kanji.len() > 0 && q.kanji[0] == k1);
            },
            _ => {
                assert(q.kanji == p.kanji);
            },
        }
        assert forall|i: int| 0 <= i < evs.drop_first().len() implies within_entry(
            #[trigger] evs.drop_first()[i],
        ) by {
            assert(evs.drop_first()[i] == evs[i + 1]);
        }
        lemma_first_kanji_stays(q, evs.drop_first(), k1);
    }
}

/// The stored headword is the first kanji form read in the entry: after
/// `<entry><k_ele><keb>k1</keb></k_ele>` and any events that neither start
/// nor end an entry (more kanji forms, readings, senses), the end of the
/// entry hands over a record whose word is `k1`.
pub proof fn lemma_headword_is_first_kanji(p: ParserView, raw: Seq<u8>, rest: Seq<EventView>)
    requires
        p.state == StateView::Root,
        decoded_text(raw) is Some,
        forall|i: int| 0 <= i < rest.len() ==> within_entry(#[trigger] rest[i]),
    ensures
        ({
            let opening = seq![
                EventView::Start(Tag::Entry, None),
                EventView::Start(Tag::KEle, None),
                EventView::Start(Tag::Keb, None),
                EventView::Text(raw),
                EventView::End(Tag::Keb),
                EventView::End(Tag::KEle),
            ];
            let q = run_events(p, opening + rest);
            next_step(q, EventView::End(Tag::Entry)).1 matches StepView::Insert(r, _) && r.word
                == decoded_text(raw).unwrap()
        }),
{
    let k1 = decoded_text(raw).unwrap();
    let opening = seq![
        EventView::Start(Tag::Entry, None),
        EventView::Start(Tag::KEle, None),
        EventView::Start(Tag::Keb, None),
        EventView::Text(raw),
        EventView::End(Tag::Keb),
        EventView::End(Tag::KEle),
    ];
    let p1 = next_step(p, opening[0]).0;
    assert(p1.kanji.len() == 0 && p1.state == StateView::Entry);
    let p2 = next_step(p1, opening[1]).0;
    assert(p2.state == StateView::KEle);
    let p3 = next_step(p2, opening[2]).0;
    assert(p3.state == StateView::KEleKeb);
    let p4 = next_step(p3, opening[3]).0;
    assert(p4.kanji == seq![k1]);
    let p5 = next_step(p4, opening[4]).0;
    let p6 = next_step(p5, opening[5]).0;
    assert(p6.kanji == seq![k1]);
    reveal_with_fuel(run_events, 7);
    assert(run_events(p, opening) == p6);
    lemma_run_concat(p, opening, rest);
    lemma_first_kanji_stays(p6, rest, k1);
}

/// Each part-of-speech code once and none empty; each meaning non-empty and
/// trimmed.
pub open spec fn gathered_well(p: ParserView) -> bool {
    &&& p.pos_set.no_duplicates()
    &&& forall|i: int| 0 <= i < p.pos_set.len() ==> (#[trigger] p.pos_set[i]).len() > 0
    &&& forall|i: int|
        0 <= i < p.glosses.len() ==> (#[trigger] p.glosses[i]).1.len() > 0 && spec_trim(
            p.glosses[i].1,
        ) == p.glosses[i].1
}

/// The JMdict reader: what it holds of the entry being read and how many
/// entries it has finished.
pub struct JmdictParser {
    state: ParseState,
    entry_id: i64,
    kanji: Vec<String>,
    kana: Vec<String>,
    pos_set: Vec<String>,
    glosses: Vec<(String, String)>,
    count: u32,
}


/// Reading an event keeps part-of-speech codes unique and non-empty, and
/// meanings non-empty and trimmed.
pub proof fn lemma_step_gathers_well(p: ParserView, ev: EventView)
    requires
        gathered_well(p),
    ensures
        gathered_well(next_step(p, ev).0),
{
    if let EventView::Text(raw) = ev {
        lemma_text_gathers_well(p, decoded_text(raw), raw);
    }
}

/// Reading a text, whatever its decoding gave, keeps part-of-speech codes
/// unique and non-empty, and meanings non-empty and trimmed.
pub proof fn lemma_text_gathers_well(p: ParserView, decoded: Option<Seq<char>>, raw: Seq<u8>)
    requires
        gathered_well(p),
    ensures
        gathered_well(after_decoded_text(p, decoded, raw)),
{
    {
        let q = after_decoded_text(p, decoded, raw);
        if let StateView::SensePos = p.state {
            let code = pos_code(raw);
            if code.len() > 0 && !p.pos_set.contains(code) {
                assert forall|i: int, j: int|
                    0 <= i < q.pos_set.len() && 0 <= j < q.pos_set.len() && i != j implies q.pos_set[i]
                    != q.pos_set[j] by {
                    let n = p.pos_set.len() as int;
                    if i == n {
                        assert(q.pos_set[j] == p.pos_set[j]);
                        assert(q.pos_set[i] == code);
                    }
                    if j == n {
                        assert(q.pos_set[i] == p.pos_set[i]);
                        assert(q.pos_set[j] == code);
                    }
                }
            }
        }
        if let StateView::SenseGloss(lang) = p.state {
            if let Some(t) = decoded {
                lemma_trim_idempotent(t);
            }
        }
    }
}

/// The language of a gloss, from the raw `xml:lang` value.
fn gloss_language(lang: &Option<Vec<u8>>) -> (out: String)
    ensures
        out@ == gloss_lang(
            match lang {
                Some(l) => Some(l@),
                None => None,
            },
        ),
{
    match lang {
        None => "en".to_string(),
        Some(b) => match utf8_decode(b.as_slice()) {
            Some(s) => map_lang(s.as_str()).to_string(),
            None => map_lang("en").to_string(),
        },
    }
}

/// The part-of-speech code in the raw text of a `<pos>`.
fn pos_code_of(raw: &Vec<u8>) -> (out: Vec<char>)
    ensures
        out@ == pos_code(raw@),
{
    let text = match utf8_decode(raw.as_slice()) {
        Some(s) => chars_of(s.as_str()),
        None => Vec::new(),
    };
    let t = trim(&text);
    let n = t.len();
    if n >= 2 && t[0] == '&' && t[n - 1] == ';' {
        sub_vec(&t, 1, n - 1)
    } else {
        t
    }
}

impl JmdictParser {
    pub closed spec fn view(&self) -> ParserView {
        ParserView {
            state: self.state@,
            entry_id: self.entry_id,
            kanji: strings_view(self.kanji@),
            kana: strings_view(self.kana@),
            pos_set: strings_view(self.pos_set@),
            glosses: pairs_view(self.glosses@),
            count: self.count as nat,
        }
    }

    #[verifier::type_invariant]
    spec fn well_gathered(self) -> bool {
        gathered_well(self@)
    }

    /// A reader at the top of the document that has read no entry.
    pub fn new() -> (p: Self)
        ensures
            p@ == (ParserView {
                state: StateView::Root,
                entry_id: 0,
                kanji: seq![],
                kana: seq![],
                pos_set: seq![],
                glosses: seq![],
                count: 0,
            }),
    {
        let p = JmdictParser {
            state: ParseState::Root,
            entry_id: 0,
            kanji: Vec::new(),
            kana: Vec::new(),
            pos_set: Vec::new(),
            glosses: Vec::new(),
            count: 0,
        };
        assert(strings_view(p.kanji@) =~= Seq::<Seq<char>>::empty());
        assert(strings_view(p.kana@) =~= Seq::<Seq<char>>::empty());
        assert(strings_view(p.pos_set@) =~= Seq::<Seq<char>>::empty());
        assert(pairs_view(p.glosses@) =~= Seq::<(Seq<char>, Seq<char>)>::empty());
        p
    }

    /// How many entries the reader has finished.
    pub fn count(&self) -> (n: u32)
        ensures
            n == self@.count,
    {
        self.count
    }

    /// The entry gathered so far, as it is stored.
    fn record(&self) -> (r: WordRecord)
        ensures
            r@ == record_of(self@),
    {
        let word = if self.kanji.len() > 0 {
            self.kanji[0].clone()
        } else if self.kana.len() > 0 {
            self.kana[0].clone()
        } else {
            String::new()
        };
        let word_kana = if self.kana.len() > 0 {
            katakana_to_hiragana(self.kana[0].as_str())
        } else {
            String::new()
        };
        let pos = if self.pos_set.len() == 0 {
            None
        } else {
            let sep = ",";
            let joined = join(&self.pos_set, sep);
            proof {
                reveal_strlit(",");
            }
            assert(sep@ == seq![',']);
            Some(joined)
        };
        let mut glosses: Vec<(String, String)> = Vec::new();
        for i in 0..self.glosses.len()
            invariant
                glosses@.len() == i,
                i <= self.glosses@.len(),
                forall|k: int|
                    0 <= k < i ==> (#[trigger] glosses@[k]).0@ == self.glosses@[k].0@
                        && glosses@[k].1@ == self.glosses@[k].1@,
        {
            let g = &self.glosses[i];
            let pair = (g.0.clone(), g.1.clone());
            glosses.push(pair);
        }
        assert(pairs_view(glosses@) =~= pairs_view(self.glosses@));
        let r = WordRecord { id: self.entry_id, word, word_kana, pos, glosses };
        assert(r@.word == record_of(self@).word);
        r
    }

    fn on_start(&mut self, t: Tag, lang: &Option<Vec<u8>>)
        ensures
            ({
                let l = match lang {
                    Some(b) => Some(b@),
                    None => None,
                };
                final(self)@ == next_step(old(self)@, EventView::Start(t, l)).0
            }),
    {
        proof {
            use_type_invariant(&*self);
        }
        let next = match (t, &self.state) {
            (Tag::Entry, ParseState::Root) => Some(ParseState::Entry),
            (Tag::EntSeq, ParseState::Entry) => Some(ParseState::EntrySeq),
            (Tag::KEle, ParseState::Entry) => Some(ParseState::KEle),
            (Tag::Keb, ParseState::KEle) => Some(ParseState::KEleKeb),
            (Tag::REle, ParseState::Entry) => Some(ParseState::REle),
            (Tag::Reb, ParseState::REle) => Some(ParseState::REleReb),
            (Tag::Sense, ParseState::Entry) => Some(ParseState::Sense),
            (Tag::Pos, ParseState::Sense) => Some(ParseState::SensePos),
            (Tag::Gloss, ParseState::Sense) => Some(ParseState::SenseGloss(gloss_language(lang))),
            _ => None,
        };
        if let Some(s) = next {
            if t == Tag::Entry {
                self.entry_id = 0;
                self.kanji = Vec::new();
                self.kana = Vec::new();
                self.pos_set = Vec::new();
                self.glosses = Vec::new();
                assert(strings_view(self.kanji@) =~= Seq::<Seq<char>>::empty());
                assert(strings_view(self.kana@) =~= Seq::<Seq<char>>::empty());
                assert(strings_view(self.pos_set@) =~= Seq::<Seq<char>>::empty());
                assert(pairs_view(self.glosses@) =~= Seq::<(Seq<char>, Seq<char>)>::empty());
            }
            self.state = s;
        }
    }

    /// Takes in a text event, given its text as decoded and unescaped and its
    /// raw bytes.
    pub fn take_text(&mut self, decoded: Option<String>, raw: &Vec<u8>)
        ensures
            final(self)@ == after_decoded_text(old(self)@, opt_view(decoded), raw@),
    {
        proof {
            use_type_invariant(&*self);
        }
        let ghost p = self@;
        match &self.state {
            ParseState::EntrySeq => {
                if let Some(t) = &decoded {
                    let tv = trim(&chars_of(t.as_str()));
                    self.entry_id = match parse_i64(&tv) {
                        Some(v) => v,
                        None => 0,
                    };
                }
            },
            ParseState::KEleKeb => {
                if let Some(t) = decoded {
                    let mut items = Vec::new();
                    std::mem::swap(&mut items, &mut self.kanji);
                    items.push(t);
                    self.kanji = items;
                    assert(strings_view(self.kanji@) =~= p.kanji.push(t@));
                }
            },
            ParseState::REleReb => {
                if let Some(t) = decoded {
                    let mut items = Vec::new();
                    std::mem::swap(&mut items, &mut self.kana);
                    items.push(t);
                    self.kana = items;
                    assert(strings_view(self.kana@) =~= p.kana.push(t@));
                }
            },
            ParseState::SensePos => {
                let code = pos_code_of(raw);
                let c = string_of(&code);
                if code.len() > 0 && !contains_string(&self.pos_set, &c) {
                    proof {
                        lemma_text_gathers_well(p, opt_view(decoded), raw@);
                    }
                    let mut items = Vec::new();
                    std::mem::swap(&mut items, &mut self.pos_set);
                    items.push(c);
                    assert(strings_view(items@) =~= p.pos_set.push(code@));
                    self.pos_set = items;
                }
            },
            ParseState::SenseGloss(lang) => {
                let l = lang.clone();
                if let Some(t) = &decoded {
                    let m = trim(&chars_of(t.as_str()));
                    if m.len() > 0 {
                        proof {
                            lemma_text_gathers_well(p, opt_view(decoded), raw@);
                        }
                        proof {
                            lemma_trim_idempotent(t@);
                        }
                        assert(spec_trim(m@) == m@);
                        let meaning = string_of(&m);
                        let mut items = Vec::new();
                        std::mem::swap(&mut items, &mut self.glosses);
                        items.push((l, meaning));
                        assert(pairs_view(items@) =~= p.glosses.push((l@, m@)));
                        self.glosses = items;
                    }
                }
            },
            _ => {},
        }
    }

    /// Reads one event: moves to the next position, gathers the entry's
    /// forms, codes and glosses, and at the end of an entry hands it over.
    pub fn step(&mut self, ev: &XmlEvent) -> (r: StepResult)
        requires
            ev@ == EventView::End(Tag::Entry) ==> old(self)@.count < u32::MAX,
        ensures
            (final(self)@, r@) == next_step(old(self)@, ev@),
    {
        proof {
            use_type_invariant(&*self);
        }
        match ev {
            XmlEvent::Start { name, lang } => {
                let t = tag_of(name);
                self.on_start(t, lang);
                StepResult::Continue
            },
            XmlEvent::End { name } => {
                let t = tag_of(name);
                if t == Tag::Entry {
                    let record = self.record();
                    self.count = self.count + 1;
                    self.state = ParseState::Root;
                    let commit = self.count % 10000 == 0;
                    StepResult::Insert { record, commit }
                } else {
                    match t {
                        Tag::EntSeq => self.state = ParseState::Entry,
                        Tag::KEle => self.state = ParseState::Entry,
                        Tag::Keb => self.state = ParseState::KEle,
                        Tag::REle => self.state = ParseState::Entry,
                        Tag::Reb => self.state = ParseState::REle,
                        Tag::Sense => self.state = ParseState::Entry,
                        Tag::Pos => self.state = ParseState::Sense,
                        Tag::Gloss => self.state = ParseState::Sense,
                        _ => {},
                    }
                    StepResult::Continue
                }
            },
            XmlEvent::Text { raw } => {
                let decoded = decode_text(raw);
                self.take_text(decoded, raw);
                StepResult::Continue
            },
            XmlEvent::Eof => StepResult::Finish,
            XmlEvent::Error => StepResult::Finish,
            XmlEvent::Other => StepResult::Continue,
        }
    }
}
} // verus!
