//! Collecting messages into a log: each speaker is registered once in a
//! character list, and each kept message becomes a record of the speaker's
//! index and the message text.

use vstd::prelude::*;
use vstd::utf8::*;

use crate::bytes::matches_at;
use crate::log_parser::messages_view;
use crate::markers::{edited_mark, lemma_markers};
use crate::text::{
    at_boundary, lemma_boundary, lemma_encode_concat, lemma_start_boundary, same_text, sub_str,
    trim_str, trim_ws,
};

verus! {

broadcast use vstd::utf8::encode_utf8_valid_utf8, vstd::utf8::encode_utf8_decode_utf8;

/// The characters (speakers) met so far, each once, in order of first appearance.
pub struct CharactorSet {
    pub charactors: Vec<String>,
}

/// A log: the characters, and the records, each the index of its speaker in
/// the character list and the message text.
pub struct LogAnalyser {
    pub charactors: CharactorSet,
    pub log: Vec<(usize, String)>,
}

/// The state of a log as mathematical values: the names, and the records as
/// (speaker index, text).
pub type LogState = (Seq<Seq<char>>, Seq<(int, Seq<char>)>);

/// Registering `name` in `names`: the list after it and the index of `name`
/// there. A name already present keeps its first index; a new one is appended.
pub open spec fn register(names: Seq<Seq<char>>, name: Seq<char>) -> (Seq<Seq<char>>, int) {
    match names.index_of_first(name) {
        Some(i) => (names, i),
        None => (names.push(name), names.len() as int),
    }
}

/// `content` without a final `[編集済]` mark.
pub open spec fn strip_edited(content: Seq<char>) -> Seq<char> {
    let n = content.len();
    if n >= edited_mark().len() && content.subrange(n - edited_mark().len(), n as int)
        == edited_mark() {
        content.subrange(0, n - edited_mark().len())
    } else {
        content
    }
}

/// A final `[編集済]` is removed whatever comes before it, and a text that
/// does not end with `[編集済]` is left as it is.
pub proof fn law_strip_edited(d: Seq<char>, c: Seq<char>)
    ensures
        strip_edited(d + seq!['[', '編', '集', '済', ']']) == d,
        !(c.len() >= 5 && c.subrange(c.len() - 5, c.len() as int) == seq![
            '[',
            '編',
            '集',
            '済',
            ']',
        ]) ==> strip_edited(c) == c,
{
    let x = d + seq!['[', '編', '集', '済', ']'];
    assert(x.subrange(x.len() - 5, x.len() as int) =~= edited_mark());
    assert(x.subrange(0, x.len() - 5) =~= d);
}

/// Adding one message (speaker, content) to a log: a message whose content is
/// empty once the edit mark is gone is dropped; otherwise the speaker is
/// registered and the trimmed content is recorded under the speaker's index.
pub open spec fn analyse_step(s: LogState, m: (Seq<char>, Seq<char>)) -> LogState {
    let content = strip_edited(m.1);
    if content.len() == 0 {
        s
    } else {
        let (names, i) = register(s.0, m.0);
        (names, s.1.push((i, trim_ws(content))))
    }
}

/// Adding the messages `ms` to a log, in order.
pub open spec fn analysed(s: LogState, ms: Seq<(Seq<char>, Seq<char>)>) -> LogState
    decreases ms.len(),
{
    if ms.len() == 0 {
        s
    } else {
        analyse_step(analysed(s, ms.drop_last()), ms.last())
    }
}

/// Every record refers to a name.
pub open spec fn records_in_range(s: LogState) -> bool {
    forall|k: int| 0 <= k < s.1.len() ==> 0 <= #[trigger] s.1[k].0 < s.0.len()
}

/// Names appear once each, and every record refers to a name.
pub open spec fn well_formed(s: LogState) -> bool {
    &&& s.0.no_duplicates()
    &&& records_in_range(s)
}

/// `[main] ` opens each message of an export.
pub open spec fn export_opening() -> Seq<char> {
    seq!['[', 'm', 'a', 'i', 'n', ']', ' ']
}

/// ` : ` stands between speaker and text in an export.
pub open spec fn export_separator() -> Seq<char> {
    seq![' ', ':', ' ']
}

/// Two line feeds close each message of an export.
pub open spec fn export_closing() -> Seq<char> {
    seq!['\n', '\n']
}

/// A record (speaker, text) as a message of an export.
pub open spec fn export_record(r: (Seq<char>, Seq<char>)) -> Seq<char> {
    export_opening() + r.0 + export_separator() + r.1 + export_closing()
}

/// The records as an export, one message after the other.
pub open spec fn export_records(rs: Seq<(Seq<char>, Seq<char>)>) -> Seq<char>
    decreases rs.len(),
{
    if rs.len() == 0 {
        seq![]
    } else {
        export_records(rs.drop_last()) + export_record(rs.last())
    }
}

/// The records of a log with each speaker index replaced by the speaker's name.
pub open spec fn resolved(s: LogState) -> Seq<(Seq<char>, Seq<char>)> {
    s.1.map_values(|r: (int, Seq<char>)| (s.0[r.0], r.1))
}

/// The record that a message becomes when it is kept: its speaker and its
/// trimmed content without the edit mark.
pub open spec fn kept_record(m: (Seq<char>, Seq<char>)) -> (Seq<char>, Seq<char>) {
    (m.0, trim_ws(strip_edited(m.1)))
}

/// The records that the messages `ms` become: one for each message whose
/// content is not empty once the edit mark is gone, in order.
pub open spec fn kept_records(ms: Seq<(Seq<char>, Seq<char>)>) -> Seq<(Seq<char>, Seq<char>)>
    decreases ms.len(),
{
    if ms.len() == 0 {
        seq![]
    } else if strip_edited(ms.last().1).len() == 0 {
        kept_records(ms.drop_last())
    } else {
        kept_records(ms.drop_last()).push(kept_record(ms.last()))
    }
}

/// What registering a name does: the name stands at the index given, the old
/// names stay where they were, at most one name is added, none when the name
/// was already there, and names stay distinct.
pub proof fn lemma_register(names: Seq<Seq<char>>, name: Seq<char>)
    ensures
        ({
            let (ns, i) = register(names, name);
            &&& 0 <= i < ns.len()
            &&& ns[i] == name
            &&& names.len() <= ns.len() <= names.len() + 1
            &&& ns.subrange(0, names.len() as int) == names
            &&& names.contains(name) ==> ns == names
            &&& names.no_duplicates() ==> ns.no_duplicates()
        }),
{
    names.index_of_first_ensures(name);
    let (ns, i) = register(names, name);
    if !names.contains(name) {
        assert(ns.subrange(0, names.len() as int) =~= names);
        assert(ns[names.len() as int] == name);
    } else {
        assert(ns.subrange(0, names.len() as int) =~= names);
    }
}

/// Registering a name twice is registering it once: the second time changes
/// nothing and gives the same index.
pub proof fn law_register_idempotent(names: Seq<Seq<char>>, name: Seq<char>)
    ensures
        register(register(names, name).0, name) == register(names, name),
{
    lemma_register(names, name);
    let (ns, i) = register(names, name);
    ns.index_of_first_ensures(name);
    names.index_of_first_ensures(name);
    assert(ns.contains(name));
    let k = ns.index_of_first(name)->Some_0;
    if names.contains(name) {
        assert(ns == names);
    } else {
        assert forall|j: int| 0 <= j < names.len() implies ns[j] != name by {
            assert(ns[j] == names[j]);
        }
        if k < i {
            assert(ns[k] == names[k]);
        }
    }
}

/// Adding `a` and then `b` to a log is adding `a + b`.
pub proof fn law_analyse_concat(
    s: LogState,
    a: Seq<(Seq<char>, Seq<char>)>,
    b: Seq<(Seq<char>, Seq<char>)>,
)
    ensures
        analysed(analysed(s, a), b) == analysed(s, a + b),
    decreases b.len(),
{
    if b.len() == 0 {
        assert(a + b =~= a);
    } else {
        law_analyse_concat(s, a, b.drop_last());
        assert((a + b).drop_last() =~= a + b.drop_last());
        assert((a + b).last() == b.last());
    }
}

/// Adding messages to a log whose records all refer to names keeps it so,
/// keeps the old names and records where they were, and appends exactly the
/// records of the kept messages, each under the name of its speaker.
pub proof fn law_analyse_records(s: LogState, ms: Seq<(Seq<char>, Seq<char>)>)
    requires
        records_in_range(s),
    ensures
        records_in_range(analysed(s, ms)),
        analysed(s, ms).0.len() >= s.0.len(),
        analysed(s, ms).0.subrange(0, s.0.len() as int) == s.0,
        analysed(s, ms).1.len() >= s.1.len(),
        analysed(s, ms).1.subrange(0, s.1.len() as int) == s.1,
        resolved(analysed(s, ms)) == resolved(s) + kept_records(ms),
    decreases ms.len(),
{
    if ms.len() == 0 {
        assert(s.0.subrange(0, s.0.len() as int) =~= s.0);
        assert(s.1.subrange(0, s.1.len() as int) =~= s.1);
        assert(resolved(s) + kept_records(ms) =~= resolved(s));
    } else {
        let ms0 = ms.drop_last();
        let m = ms.last();
        law_analyse_records(s, ms0);
        let t = analysed(s, ms0);
        let content = strip_edited(m.1);
        if content.len() != 0 {
            lemma_register(t.0, m.0);
            let (ns, i) = register(t.0, m.0);
            let u = analysed(s, ms);
            assert(u == (ns, t.1.push((i, trim_ws(content)))));
            assert forall|k: int| 0 <= k < u.1.len() implies 0 <= #[trigger] u.1[k].0 < u.0.len() by {
                if k < t.1.len() {
                    assert(u.1[k] == t.1[k]);
                }
            }
            assert forall|j: int| 0 <= j < s.0.len() implies u.0[j] == s.0[j] by {
                assert(u.0[j] == ns.subrange(0, t.0.len() as int)[j]);
                assert(t.0[j] == t.0.subrange(0, s.0.len() as int)[j]);
            }
            assert(u.0.subrange(0, s.0.len() as int) =~= s.0);
            assert forall|j: int| 0 <= j < s.1.len() implies u.1[j] == s.1[j] by {
                assert(t.1[j] == t.1.subrange(0, s.1.len() as int)[j]);
            }
            assert(u.1.subrange(0, s.1.len() as int) =~= s.1);
            assert forall|k: int| 0 <= k < t.1.len() implies #[trigger] resolved(u)[k] == resolved(
                t,
            )[k] by {
                assert(u.1[k] == t.1[k]);
                assert(ns[t.1[k].0] == ns.subrange(0, t.0.len() as int)[t.1[k].0]);
            }
            assert(resolved(u) =~= resolved(t).push(kept_record(m)));
            assert(resolved(u) =~= resolved(s) + kept_records(ms));
        } else {
            assert(kept_records(ms) == kept_records(ms0));
        }
    }
}

/// Adding messages to a log whose names are distinct keeps them distinct.
pub proof fn law_analyse_names_distinct(s: LogState, ms: Seq<(Seq<char>, Seq<char>)>)
    requires
        s.0.no_duplicates(),
    ensures
        analysed(s, ms).0.no_duplicates(),
    decreases ms.len(),
{
    if ms.len() > 0 {
        law_analyse_names_distinct(s, ms.drop_last());
        lemma_register(analysed(s, ms.drop_last()).0, ms.last().0);
    }
}

/// Adding messages to a well-formed log keeps it well formed.
pub proof fn law_analyse_well_formed(s: LogState, ms: Seq<(Seq<char>, Seq<char>)>)
    requires
        well_formed(s),
    ensures
        well_formed(analysed(s, ms)),
{
    law_analyse_records(s, ms);
    law_analyse_names_distinct(s, ms);
}

impl CharactorSet {
    /// The names as texts.
    pub open spec fn names(&self) -> Seq<Seq<char>> {
        self.charactors@.map_values(|c: String| c@)
    }

    /// An empty character list.
    pub fn new() -> (r: Self)
        ensures
            r.names() == Seq::<Seq<char>>::empty(),
    {
        let r = CharactorSet { charactors: Vec::new() };
        assert(r.names() =~= Seq::<Seq<char>>::empty());
        r
    }

    /// The index of `name`, registering it first when it is new.
    pub fn query_charactor(&mut self, name: &str) -> (i: usize)
        ensures
            (final(self).names(), i as int) == register(old(self).names(), name@),
    {
        let mut i: usize = 0;
        while i < self.charactors.len()
            invariant
                self.charactors@ == old(self).charactors@,
                i <= self.charactors@.len(),
                forall|j: int| 0 <= j < i ==> self.names()[j] != name@,
            decreases self.charactors@.len() - i,
        {
            if same_text(self.charactors[i].as_str(), name) {
                proof {
                    let ns = self.names();
                    assert(ns[i as int] == name@);
                    ns.index_of_first_ensures(name@);
                    assert(ns.contains(name@));
                    let k = ns.index_of_first(name@)->Some_0;
                    if k < i {
                        assert(ns[k] != name@);
                    }
                    if k > i {
                        assert(ns[i as int] != name@);
                    }
                    assert(ns == old(self).names());
                }
                return i;
            }
            i += 1;
        }
        proof {
            old(self).names().index_of_first_ensures(name@);
        }
        self.charactors.push(name.to_owned());
        assert(self.names() =~= old(self).names().push(name@));
        self.charactors.len() - 1
    }
}

impl Default for CharactorSet {
    fn default() -> (r: Self)
        ensures
            r.names() == Seq::<Seq<char>>::empty(),
    {
        CharactorSet::new()
    }
}

/// `content` without a final `[編集済]` mark.
fn strip_edited_str(content: &str) -> (r: &str)
    ensures
        r@ == strip_edited(content@),
{
    let b = content.as_bytes();
    let n = b.len();
    let mark: [u8; 11] = [0x5B, 0xE7, 0xB7, 0xA8, 0xE9, 0x9B, 0x86, 0xE6, 0xB8, 0x88, 0x5D];
    let ghost c = content@;
    let ghost e = edited_mark();
    proof {
        lemma_markers();
        assert(mark@ =~= encode_utf8(e));
        encode_utf8_decode_utf8(e);
        if c.len() >= 5 && c.subrange(c.len() - 5, c.len() as int) == e {
            assert(c =~= c.subrange(0, c.len() - 5) + e);
            lemma_encode_concat(c.subrange(0, c.len() - 5), e);
            assert(b@.subrange(n - 11, n as int) =~= encode_utf8(e));
        }
    }
    if n >= 11 && matches_at(b, n - 11, &mark) {
        proof {
            lemma_start_boundary(b@);
            assert(b@.subrange(n - 11, n as int)[0] == b@[n - 11]);
            assert(at_boundary(b@, n - 11));
            lemma_boundary(b@, n - 11);
            decode_utf8_split(b@, n - 11);
            assert(b@.subrange(n - 11, b@.len() as int) =~= encode_utf8(e));
            let d = decode_utf8(b@.subrange(0, n - 11));
            assert(c =~= d + e);
            assert(c.subrange(c.len() - 5, c.len() as int) =~= e);
            assert(c.subrange(0, c.len() - 5) =~= d);
        }
        sub_str(content, 0, n - 11)
    } else {
        content
    }
}

impl LogAnalyser {
    /// The log as mathematical values.
    pub open spec fn state(&self) -> LogState {
        (self.charactors.names(), self.log@.map_values(|r: (usize, String)| (r.0 as int, r.1@)))
    }

    /// An empty log.
    pub fn new() -> (r: Self)
        ensures
            r.state() == (Seq::<Seq<char>>::empty(), Seq::<(int, Seq<char>)>::empty()),
    {
        let r = LogAnalyser { charactors: CharactorSet::new(), log: Vec::new() };
        assert(r.state().1 =~= Seq::<(int, Seq<char>)>::empty());
        r
    }

    /// Adds the messages `value` (speaker, content) to the log, in order. A
    /// final `[編集済]` mark is removed from the content; a message whose
    /// content is then empty is dropped; otherwise the speaker is registered
    /// and the trimmed content is recorded under the speaker's index.
    pub fn analyse(&mut self, value: Vec<(&str, &str)>)
        ensures
            final(self).state() == analysed(old(self).state(), messages_view(value@)),
    {
        let ghost ms = messages_view(value@);
        let mut i: usize = 0;
        while i < value.len()
            invariant
                i <= value@.len(),
                ms == messages_view(value@),
                self.state() == analysed(old(self).state(), ms.take(i as int)),
            decreases value@.len() - i,
        {
            let (chara, content) = value[i];
            let ghost before = self.state();
            let content = strip_edited_str(content);
            if !content.is_empty() {
                let idx = self.charactors.query_charactor(chara);
                let text = trim_str(content).to_owned();
                self.log.push((idx, text));
            }
            proof {
                assert(ms.take(i + 1).drop_last() =~= ms.take(i as int));
                assert(ms.take(i + 1).last() == ms[i as int]);
                assert(self.state() =~= analyse_step(before, ms[i as int]));
            }
            i += 1;
        }
        assert(ms.take(value@.len() as int) =~= ms);
    }
}

impl LogAnalyser {
    /// Whether every record refers to a character of the list.
    pub fn all_records_in_range(&self) -> (r: bool)
        ensures
            r == records_in_range(self.state()),
    {
        let mut i: usize = 0;
        while i < self.log.len()
            invariant
                i <= self.log@.len(),
                forall|k: int| 0 <= k < i ==> 0 <= #[trigger] self.state().1[k].0 < self.state().0.len(),
            decreases self.log@.len() - i,
        {
            proof {
                assert(self.state().1[i as int].0 == self.log@[i as int].0 as int);
            }
            if self.log[i].0 >= self.charactors.charactors.len() {
                return false;
            }
            i += 1;
        }
        true
    }

    /// The name of the character at `index`, or `Unknown` when there is none.
    pub fn charactor_name(&self, index: usize) -> (r: String)
        ensures
            r@ == if index < self.state().0.len() {
                self.state().0[index as int]
            } else {
                "Unknown"@
            },
    {
        if index < self.charactors.charactors.len() {
            self.charactors.charactors[index].clone()
        } else {
            String::from_str("Unknown")
        }
    }

    /// The records, each as (speaker's name, text), in order.
    pub fn messages(&self) -> (r: Vec<(String, String)>)
        requires
            records_in_range(self.state()),
        ensures
            r@.map_values(|m: (String, String)| (m.0@, m.1@)) == resolved(self.state()),
    {
        let mut r: Vec<(String, String)> = Vec::new();
        let mut i: usize = 0;
        while i < self.log.len()
            invariant
                i <= self.log@.len(),
                records_in_range(self.state()),
                r@.map_values(|m: (String, String)| (m.0@, m.1@)) == resolved(self.state()).take(
                    i as int,
                ),
            decreases self.log@.len() - i,
        {
            let (idx, text) = &self.log[i];
            proof {
                assert(self.state().1[i as int].0 == *idx as int);
            }
            let name = self.charactors.charactors[*idx].clone();
            let body = text.clone();
            proof {
                assert(name@ == self.state().0[*idx as int]);
                assert(body@ == self.state().1[i as int].1);
                assert(resolved(self.state())[i as int] == (name@, body@));
            }
            let ghost before = r@;
            r.push((name, body));
            proof {
                assert(r@.map_values(|m: (String, String)| (m.0@, m.1@)) =~= before.map_values(
                    |m: (String, String)| (m.0@, m.1@),
                ).push(resolved(self.state())[i as int]));
                assert(r@.map_values(|m: (String, String)| (m.0@, m.1@)) =~= resolved(
                    self.state(),
                ).take(i + 1));
            }
            i += 1;
        }
        assert(resolved(self.state()).take(self.log@.len() as int) =~= resolved(self.state()));
        r
    }

    /// The log written out as an HTML-style export: each record as
    /// `[main] name : text` and two line feeds, in order.
    pub fn export_text(&self) -> (r: String)
        requires
            records_in_range(self.state()),
        ensures
            r@ == export_records(resolved(self.state())),
    {
        let mut out = String::new();
        let mut i: usize = 0;
        proof {
            reveal_strlit("[main] ");
            reveal_strlit(" : ");
            reveal_strlit("\n\n");
            assert(export_records(resolved(self.state()).take(0)) =~= Seq::<char>::empty());
        }
        while i < self.log.len()
            invariant
                i <= self.log@.len(),
                records_in_range(self.state()),
                "[main] "@ == export_opening(),
                " : "@ == export_separator(),
                "\n\n"@ == export_closing(),
                out@ == export_records(resolved(self.state()).take(i as int)),
            decreases self.log@.len() - i,
        {
            let (idx, text) = &self.log[i];
            let ghost rec = resolved(self.state())[i as int];
            proof {
                assert(self.state().1[i as int].0 == *idx as int);
            }
            out.append("[main] ");
            out.append(self.charactors.charactors[*idx].as_str());
            out.append(" : ");
            out.append(text.as_str());
            out.append("\n\n");
            proof {
                let rs = resolved(self.state()).take(i + 1);
                assert(rs.drop_last() =~= resolved(self.state()).take(i as int));
                assert(rs.last() == rec);
                assert(out@ =~= export_records(rs));
            }
            i += 1;
        }
        assert(resolved(self.state()).take(self.log@.len() as int) =~= resolved(self.state()));
        out
    }
}

impl Default for LogAnalyser {
    fn default() -> (r: Self)
        ensures
            r.state() == (Seq::<Seq<char>>::empty(), Seq::<(int, Seq<char>)>::empty()),
    {
        LogAnalyser::new()
    }
}

} // verus!
