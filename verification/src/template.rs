//! Tokenizing raw template text into literal and placeholder segments,
//! extracting variable names, and rendering a template back to a string.
//!
//! A placeholder is written `{{name}}`, where `name` is one or more word
//! characters (ASCII letters, digits, underscore). Everything else is
//! literal text. Tokenization is total: malformed brace sequences stay
//! literal, and concatenating the segments back (placeholders rendered as
//! `{{name}}`) reproduces the raw string exactly.

use vstd::prelude::*;

verus! {

/// One segment of a tokenized template: literal text or a placeholder.
#[derive(Clone, Debug, PartialEq, Eq)]
pub enum CommandPart {
    Text(String),
    Variable(String),
}

/// The mathematical value of one segment: the segment's text as a
/// sequence of characters.
pub enum PartView {
    Text(Seq<char>),
    Variable(Seq<char>),
}

impl View for CommandPart {
    type V = PartView;

    open spec fn view(&self) -> PartView {
        match self {
            CommandPart::Text(t) => PartView::Text(t@),
            CommandPart::Variable(v) => PartView::Variable(v@),
        }
    }
}

/// The views of a sequence of segments.
pub open spec fn parts_view(ps: Seq<CommandPart>) -> Seq<PartView> {
    ps.map_values(|p: CommandPart| p@)
}

/// The views of a sequence of strings.
pub open spec fn strings_view(ss: Seq<String>) -> Seq<Seq<char>> {
    ss.map_values(|s: String| s@)
}

/// A word character: an ASCII letter, digit, or underscore. This is the
/// loose class accepted inside `{{...}}` by the tokenizer.
pub open spec fn is_word_char(c: char) -> bool {
    ('a' <= c && c <= 'z') || ('A' <= c && c <= 'Z') || ('0' <= c && c <= '9') || c == '_'
}

/// The end of the run of word characters starting at position `k`.
pub open spec fn word_end(s: Seq<char>, k: int) -> int
    recommends
        0 <= k <= s.len(),
    decreases s.len() - k,
{
    if k < s.len() && is_word_char(s[k]) {
        word_end(s, k + 1)
    } else {
        k
    }
}

pub proof fn lemma_word_end(s: Seq<char>, k: int)
    requires
        0 <= k <= s.len(),
    ensures
        k <= word_end(s, k) <= s.len(),
        forall|m: int| k <= m < word_end(s, k) ==> is_word_char(s[m]),
        word_end(s, k) < s.len() ==> !is_word_char(s[word_end(s, k)]),
    decreases s.len() - k,
{
    if k < s.len() && is_word_char(s[k]) {
        lemma_word_end(s, k + 1);
    }
}

/// A placeholder `{{name}}` starts at position `i` of `s`: two opening
/// braces, then a nonempty maximal run of word characters, then two
/// closing braces.
pub open spec fn placeholder_at(s: Seq<char>, i: int) -> bool {
    &&& 0 <= i
    &&& i + 2 < s.len()
    &&& s[i] == '{'
    &&& s[i + 1] == '{'
    &&& word_end(s, i + 2) > i + 2
    &&& word_end(s, i + 2) + 2 <= s.len()
    &&& s[word_end(s, i + 2)] == '}'
    &&& s[word_end(s, i + 2) + 1] == '}'
}

/// The position just past the placeholder starting at `i`.
pub open spec fn match_end(s: Seq<char>, i: int) -> int {
    word_end(s, i + 2) + 2
}

/// The name inside the placeholder starting at `i`.
pub open spec fn placeholder_name(s: Seq<char>, i: int) -> Seq<char> {
    s.subrange(i + 2, word_end(s, i + 2))
}

/// An empty pending literal yields no segment; a nonempty one yields a
/// single literal segment.
pub open spec fn flush_literal(lit: Seq<char>) -> Seq<PartView> {
    if lit.len() > 0 {
        seq![PartView::Text(lit)]
    } else {
        Seq::<PartView>::empty()
    }
}

/// The tokenization of `s` from position `i` on, with `lit` the literal
/// characters collected since the last emitted segment. At each position a
/// placeholder match is taken whole; any other character joins the pending
/// literal run.
pub open spec fn spec_scan(s: Seq<char>, i: int, lit: Seq<char>) -> Seq<PartView>
    recommends
        0 <= i <= s.len(),
    decreases s.len() - i,
{
    if i < 0 || i >= s.len() {
        flush_literal(lit)
    } else if placeholder_at(s, i) {
        flush_literal(lit) + seq![PartView::Variable(placeholder_name(s, i))] + spec_scan(
            s,
            match_end(s, i),
            Seq::<char>::empty(),
        )
    } else {
        spec_scan(s, i + 1, lit.push(s[i]))
    }
}

/// The tokenization of a whole raw string.
pub open spec fn spec_tokenize(s: Seq<char>) -> Seq<PartView> {
    spec_scan(s, 0, Seq::<char>::empty())
}

/// The text one segment contributes when the template is written back out:
/// a literal verbatim, a placeholder as `{{name}}`.
pub open spec fn part_text(p: PartView) -> Seq<char> {
    match p {
        PartView::Text(t) => t,
        PartView::Variable(v) => seq!['{', '{'] + v + seq!['}', '}'],
    }
}

/// The text of a whole segment sequence, in order.
pub open spec fn template_text(ps: Seq<PartView>) -> Seq<char>
    decreases ps.len(),
{
    if ps.len() == 0 {
        Seq::<char>::empty()
    } else {
        template_text(ps.drop_last()) + part_text(ps.last())
    }
}

proof fn lemma_template_text_single(p: PartView)
    ensures
        template_text(seq![p]) == part_text(p),
{
    let x = seq![p];
    assert(x.drop_last() =~= Seq::<PartView>::empty());
    assert(template_text(Seq::<PartView>::empty()) == Seq::<char>::empty());
    assert(x.last() == p);
    assert(Seq::<char>::empty() + part_text(p) =~= part_text(p));
}

proof fn lemma_template_text_flush(lit: Seq<char>)
    ensures
        template_text(flush_literal(lit)) == lit,
{
    if lit.len() > 0 {
        lemma_template_text_single(PartView::Text(lit));
    }
}

pub proof fn lemma_template_text_concat(a: Seq<PartView>, b: Seq<PartView>)
    ensures
        template_text(a + b) == template_text(a) + template_text(b),
    decreases b.len(),
{
    if b.len() == 0 {
        assert(a + b =~= a);
        assert(template_text(a) + template_text(b) =~= template_text(a));
    } else {
        lemma_template_text_concat(a, b.drop_last());
        assert((a + b).drop_last() =~= a + b.drop_last());
        assert(template_text(a) + (template_text(b.drop_last()) + part_text(b.last())) =~= (
        template_text(a) + template_text(b.drop_last())) + part_text(b.last()));
    }
}

proof fn lemma_scan_round_trip(s: Seq<char>, i: int, lit: Seq<char>)
    requires
        0 <= i <= s.len(),
    ensures
        template_text(spec_scan(s, i, lit)) == lit + s.subrange(i, s.len() as int),
    decreases s.len() - i,
{
    if i >= s.len() {
        lemma_template_text_flush(lit);
        assert(lit + s.subrange(i, s.len() as int) =~= lit);
    } else if placeholder_at(s, i) {
        let j = word_end(s, i + 2);
        lemma_word_end(s, i + 2);
        lemma_scan_round_trip(s, j + 2, Seq::<char>::empty());
        let front = flush_literal(lit) + seq![PartView::Variable(placeholder_name(s, i))];
        lemma_template_text_concat(front, spec_scan(s, j + 2, Seq::<char>::empty()));
        lemma_template_text_concat(
            flush_literal(lit),
            seq![PartView::Variable(placeholder_name(s, i))],
        );
        lemma_template_text_flush(lit);
        let one = seq![PartView::Variable(placeholder_name(s, i))];
        lemma_template_text_single(PartView::Variable(placeholder_name(s, i)));
        assert(part_text(PartView::Variable(placeholder_name(s, i))) =~= s.subrange(i, j + 2));
        assert(Seq::<char>::empty() + s.subrange(j + 2, s.len() as int) =~= s.subrange(
            j + 2,
            s.len() as int,
        ));
        assert(spec_scan(s, i, lit) == front + spec_scan(s, j + 2, Seq::<char>::empty()));
        assert((lit + s.subrange(i, j + 2)) + s.subrange(j + 2, s.len() as int) =~= lit
            + s.subrange(i, s.len() as int));
    } else {
        lemma_scan_round_trip(s, i + 1, lit.push(s[i]));
        assert(lit.push(s[i]) + s.subrange(i + 1, s.len() as int) =~= lit + s.subrange(
            i,
            s.len() as int,
        ));
    }
}

/// Round-trip law: writing the tokenization of `s` back out — literals
/// verbatim, each placeholder as `{{name}}` — reconstructs `s` exactly.
pub proof fn lemma_tokenize_round_trip(s: Seq<char>)
    ensures
        template_text(spec_tokenize(s)) == s,
{
    lemma_scan_round_trip(s, 0, Seq::<char>::empty());
    assert(Seq::<char>::empty() + s.subrange(0, s.len() as int) =~= s);
}

proof fn lemma_template_text_push(ps: Seq<PartView>, p: PartView)
    ensures
        template_text(ps.push(p)) == template_text(ps) + part_text(p),
{
    assert(ps.push(p).drop_last() =~= ps);
    assert(ps.push(p).last() == p);
}

/// The variable names referenced by a segment sequence, in order,
/// duplicates preserved.
pub open spec fn vars_of(ps: Seq<PartView>) -> Seq<Seq<char>>
    decreases ps.len(),
{
    if ps.len() == 0 {
        Seq::<Seq<char>>::empty()
    } else {
        vars_of(ps.drop_last()) + (match ps.last() {
            PartView::Variable(v) => seq![v],
            PartView::Text(_) => Seq::<Seq<char>>::empty(),
        })
    }
}

pub proof fn lemma_vars_of_push(ps: Seq<PartView>, p: PartView)
    ensures
        vars_of(ps.push(p)) == vars_of(ps) + (match p {
            PartView::Variable(v) => seq![v],
            PartView::Text(_) => Seq::<Seq<char>>::empty(),
        }),
{
    assert(ps.push(p).drop_last() =~= ps);
    assert(ps.push(p).last() == p);
}

/// The literal segments' texts, in order, placeholders ignored.
pub open spec fn literals_of(ps: Seq<PartView>) -> Seq<Seq<char>>
    decreases ps.len(),
{
    if ps.len() == 0 {
        Seq::<Seq<char>>::empty()
    } else {
        literals_of(ps.drop_last()) + (match ps.last() {
            PartView::Text(t) => seq![t],
            PartView::Variable(_) => Seq::<Seq<char>>::empty(),
        })
    }
}

pub proof fn lemma_literals_of_push(ps: Seq<PartView>, p: PartView)
    ensures
        literals_of(ps.push(p)) == literals_of(ps) + (match p {
            PartView::Text(t) => seq![t],
            PartView::Variable(_) => Seq::<Seq<char>>::empty(),
        }),
{
    assert(ps.push(p).drop_last() =~= ps);
    assert(ps.push(p).last() == p);
}

/// The value bound to `name` in an association list, or the empty string
/// when `name` is absent.
pub open spec fn lookup(values: Seq<(Seq<char>, Seq<char>)>, name: Seq<char>) -> Seq<char>
    decreases values.len(),
{
    if values.len() == 0 {
        Seq::<char>::empty()
    } else if values[0].0 == name {
        values[0].1
    } else {
        lookup(values.drop_first(), name)
    }
}

/// The views of a sequence of name/value pairs.
pub open spec fn pairs_view(vs: Seq<(String, String)>) -> Seq<(Seq<char>, Seq<char>)> {
    vs.map_values(|p: (String, String)| (p.0@, p.1@))
}

/// The rendering of segments under `values`: literals verbatim, each
/// placeholder replaced by the value bound to its name, absent names by
/// the empty string.
pub open spec fn spec_render(ps: Seq<PartView>, values: Seq<(Seq<char>, Seq<char>)>) -> Seq<char>
    decreases ps.len(),
{
    if ps.len() == 0 {
        Seq::<char>::empty()
    } else {
        spec_render(ps.drop_last(), values) + (match ps.last() {
            PartView::Text(t) => t,
            PartView::Variable(v) => lookup(values, v),
        })
    }
}

proof fn lemma_spec_render_push(ps: Seq<PartView>, p: PartView, values: Seq<(Seq<char>, Seq<char>)>)
    ensures
        spec_render(ps.push(p), values) == spec_render(ps, values) + (match p {
            PartView::Text(t) => t,
            PartView::Variable(v) => lookup(values, v),
        }),
{
    assert(ps.push(p).drop_last() =~= ps);
    assert(ps.push(p).last() == p);
}

/// Segment sequence with every placeholder named `old_name` renamed to
/// `new_name`; literals are untouched.
pub open spec fn rename_parts(ps: Seq<PartView>, old_name: Seq<char>, new_name: Seq<char>) -> Seq<
    PartView,
> {
    ps.map_values(
        |p: PartView|
            match p {
                PartView::Variable(v) => PartView::Variable(
                    if v == old_name {
                        new_name
                    } else {
                        v
                    },
                ),
                PartView::Text(t) => PartView::Text(t),
            },
    )
}

/// Character-wise string equality; equivalent to view equality.
pub fn str_eq(a: &str, b: &str) -> (r: bool)
    ensures
        r == (a@ == b@),
{
    let n = a.unicode_len();
    let m = b.unicode_len();
    if n != m {
        return false;
    }
    let mut i: usize = 0;
    while i < n
        invariant
            i <= n,
            n == a@.len(),
            n == b@.len(),
            forall|j: int| 0 <= j < i ==> a@[j] == b@[j],
        decreases n - i,
    {
        if a.get_char(i) != b.get_char(i) {
            return false;
        }
        i = i + 1;
    }
    proof {
        assert(a@ =~= b@);
    }
    true
}

/// Appends `{{name}}` to `out`.
fn append_placeholder(out: &mut String, name: &str)
    ensures
        final(out)@ == old(out)@ + seq!['{', '{'] + name@ + seq!['}', '}'],
{
    proof {
        reveal_strlit("{{");
        reveal_strlit("}}");
        assert(("{{")@ =~= seq!['{', '{']);
        assert(("}}")@ =~= seq!['}', '}']);
    }
    out.append("{{");
    out.append(name);
    out.append("}}");
}

/// The value bound to `name`, cloned, or a fresh empty string.
fn lookup_value(values: &Vec<(String, String)>, name: &String) -> (r: String)
    ensures
        r@ == lookup(pairs_view(values@), name@),
{
    let n = values.len();
    let mut idx: usize = 0;
    proof {
        assert(pairs_view(values@).skip(0) =~= pairs_view(values@));
    }
    while idx < n
        invariant
            idx <= n,
            n == values@.len(),
            lookup(pairs_view(values@), name@) == lookup(
                pairs_view(values@).skip(idx as int),
                name@,
            ),
        decreases n - idx,
    {
        let ghost pv = pairs_view(values@);
        proof {
            assert(pv.skip(idx as int)[0] == pv[idx as int]);
        }
        if values[idx].0.eq(name) {
            return values[idx].1.clone();
        }
        proof {
            assert(pv.skip(idx as int).drop_first() =~= pv.skip(idx as int + 1));
        }
        idx = idx + 1;
    }
    proof {
        assert(pairs_view(values@).skip(n as int) =~= Seq::<(Seq<char>, Seq<char>)>::empty());
    }
    String::new()
}

/// The variable names referenced by a segment list, in order of
/// appearance, duplicates preserved.
pub fn variable_names(parts: &Vec<CommandPart>) -> (names: Vec<String>)
    ensures
        strings_view(names@) == vars_of(parts_view(parts@)),
{
    let mut names: Vec<String> = Vec::new();
    let n = parts.len();
    let mut idx: usize = 0;
    proof {
        assert(parts_view(parts@).take(0) =~= Seq::<PartView>::empty());
        assert(strings_view(names@) =~= Seq::<Seq<char>>::empty());
    }
    while idx < n
        invariant
            n == parts@.len(),
            idx <= n,
            strings_view(names@) == vars_of(parts_view(parts@).take(idx as int)),
        decreases n - idx,
    {
        let ghost pvs = parts_view(parts@);
        let ghost names0 = strings_view(names@);
        match &parts[idx] {
            CommandPart::Variable(v) => {
                names.push(v.clone());
                proof {
                    assert(strings_view(names@) =~= names0.push(v@));
                    assert(names0.push(v@) =~= names0 + seq![v@]);
                }
            },
            CommandPart::Text(_) => {
                proof {
                    assert(names0 + Seq::<Seq<char>>::empty() =~= names0);
                }
            },
        }
        proof {
            assert(pvs.take(idx as int + 1) =~= pvs.take(idx as int).push(pvs[idx as int]));
            lemma_vars_of_push(pvs.take(idx as int), pvs[idx as int]);
        }
        idx = idx + 1;
    }
    proof {
        assert(parts_view(parts@).take(n as int) =~= parts_view(parts@));
    }
    names
}

/// The texts of the literal segments of a segment list, in order.
pub fn literal_texts(parts: &Vec<CommandPart>) -> (lits: Vec<String>)
    ensures
        strings_view(lits@) == literals_of(parts_view(parts@)),
{
    let mut lits: Vec<String> = Vec::new();
    let n = parts.len();
    let mut idx: usize = 0;
    proof {
        assert(parts_view(parts@).take(0) =~= Seq::<PartView>::empty());
        assert(strings_view(lits@) =~= Seq::<Seq<char>>::empty());
    }
    while idx < n
        invariant
            n == parts@.len(),
            idx <= n,
            strings_view(lits@) == literals_of(parts_view(parts@).take(idx as int)),
        decreases n - idx,
    {
        let ghost pvs = parts_view(parts@);
        let ghost lits0 = strings_view(lits@);
        match &parts[idx] {
            CommandPart::Text(t) => {
                lits.push(t.clone());
                proof {
                    assert(strings_view(lits@) =~= lits0.push(t@));
                    assert(lits0.push(t@) =~= lits0 + seq![t@]);
                }
            },
            CommandPart::Variable(_) => {
                proof {
                    assert(lits0 + Seq::<Seq<char>>::empty() =~= lits0);
                }
            },
        }
        proof {
            assert(pvs.take(idx as int + 1) =~= pvs.take(idx as int).push(pvs[idx as int]));
            lemma_literals_of_push(pvs.take(idx as int), pvs[idx as int]);
        }
        idx = idx + 1;
    }
    proof {
        assert(parts_view(parts@).take(n as int) =~= parts_view(parts@));
    }
    lits
}

/// Exec test for a word character.
pub fn word_char(c: char) -> (r: bool)
    ensures
        r == is_word_char(c),
{
    ('a' <= c && c <= 'z') || ('A' <= c && c <= 'Z') || ('0' <= c && c <= '9') || c == '_'
}

/// If a placeholder starts at `i`, returns the end of its name's word run
/// (so the placeholder occupies `i .. r + 2`); otherwise `None`.
fn placeholder_end(s: &str, i: usize) -> (r: Option<usize>)
    requires
        i <= s@.len(),
    ensures
        match r {
            Some(j) => placeholder_at(s@, i as int) && j == word_end(s@, i as int + 2),
            None => !placeholder_at(s@, i as int),
        },
{
    let n = s.unicode_len();
    if n - i < 5 {
        proof {
            if placeholder_at(s@, i as int) {
                assert(word_end(s@, i as int + 2) > i + 2);
                assert(word_end(s@, i as int + 2) + 2 <= n);
            }
        }
        return None;
    }
    if s.get_char(i) != '{' {
        return None;
    }
    if s.get_char(i + 1) != '{' {
        return None;
    }
    let mut k: usize = i + 2;
    loop
        invariant
            i + 2 <= k <= n,
            n == s@.len(),
            word_end(s@, i as int + 2) == word_end(s@, k as int),
        ensures
            i + 2 <= k <= n,
            n == s@.len(),
            word_end(s@, i as int + 2) == k,
        decreases n - k,
    {
        if k >= n {
            break;
        }
        if !word_char(s.get_char(k)) {
            break;
        }
        k = k + 1;
    }
    if k == i + 2 {
        return None;
    }
    if n - k < 2 {
        return None;
    }
    if s.get_char(k) != '}' {
        return None;
    }
    if s.get_char(k + 1) != '}' {
        return None;
    }
    Some(k)
}

/// A tokenized command template: the raw text and its segments. The
/// segments are always exactly the tokenization of the raw text, so
/// writing them back out reproduces it.
#[derive(Clone, Debug, PartialEq, Eq)]
pub struct Command {
    pub raw: String,
    pub parts: Vec<CommandPart>,
}

/// The mathematical value of a command template.
#[verifier::ext_equal]
pub struct CommandView {
    pub raw: Seq<char>,
    pub parts: Seq<PartView>,
}

impl View for Command {
    type V = CommandView;

    open spec fn view(&self) -> CommandView {
        CommandView { raw: self.raw@, parts: parts_view(self.parts@) }
    }
}

/// A clone of one segment, view-equal to the original.
pub fn clone_part(p: &CommandPart) -> (r: CommandPart)
    ensures
        r@ == p@,
{
    match p {
        CommandPart::Text(t) => CommandPart::Text(t.clone()),
        CommandPart::Variable(v) => CommandPart::Variable(v.clone()),
    }
}

/// A structural clone of a command, view-equal to the original.
pub fn clone_command(c: &Command) -> (r: Command)
    ensures
        r@ == c@,
{
    let mut parts: Vec<CommandPart> = Vec::new();
    let n = c.parts.len();
    let mut i: usize = 0;
    proof {
        assert(parts_view(c.parts@).take(0) =~= Seq::<PartView>::empty());
        assert(parts_view(parts@) =~= Seq::<PartView>::empty());
    }
    while i < n
        invariant
            i <= n,
            n == c.parts@.len(),
            parts_view(parts@) == parts_view(c.parts@).take(i as int),
        decreases n - i,
    {
        let ghost p0 = parts_view(parts@);
        parts.push(clone_part(&c.parts[i]));
        proof {
            assert(parts_view(parts@) =~= p0.push(c.parts@[i as int]@));
            assert(parts_view(c.parts@).take(i as int + 1) =~= parts_view(c.parts@).take(
                i as int,
            ).push(parts_view(c.parts@)[i as int]));
        }
        i = i + 1;
    }
    proof {
        assert(parts_view(c.parts@).take(n as int) =~= parts_view(c.parts@));
    }
    Command { raw: c.raw.clone(), parts }
}

/// A clone of a string list, elementwise view-equal.
pub fn clone_strings(items: &Vec<String>) -> (r: Vec<String>)
    ensures
        strings_view(r@) == strings_view(items@),
{
    let mut r: Vec<String> = Vec::new();
    let n = items.len();
    let mut i: usize = 0;
    proof {
        assert(strings_view(items@).take(0) =~= Seq::<Seq<char>>::empty());
        assert(strings_view(r@) =~= Seq::<Seq<char>>::empty());
    }
    while i < n
        invariant
            i <= n,
            n == items@.len(),
            strings_view(r@) == strings_view(items@).take(i as int),
        decreases n - i,
    {
        let ghost r0 = strings_view(r@);
        r.push(items[i].clone());
        proof {
            assert(strings_view(r@) =~= r0.push(items@[i as int]@));
            assert(strings_view(items@).take(i as int + 1) =~= strings_view(items@).take(
                i as int,
            ).push(strings_view(items@)[i as int]));
        }
        i = i + 1;
    }
    proof {
        assert(strings_view(items@).take(n as int) =~= strings_view(items@));
    }
    r
}

impl Command {
    /// The segments are the tokenization of the raw text.
    pub open spec fn wf(&self) -> bool {
        parts_view(self.parts@) == spec_tokenize(self.raw@)
    }

    /// Tokenizes a raw template string.
    pub fn new(raw: String) -> (c: Command)
        ensures
            c.raw == raw,
            c.wf(),
    {
        let parts = Command::parse_parts(raw.as_str());
        Command { raw, parts }
    }

    /// Scans `raw` left to right; each `{{word}}` becomes a placeholder
    /// segment, every other character joins the nearest literal segment.
    /// Empty literal runs are omitted. Total: any input tokenizes.
    pub fn parse_parts(raw: &str) -> (parts: Vec<CommandPart>)
        ensures
            parts_view(parts@) == spec_tokenize(raw@),
    {
        let s = raw;
        let n = s.unicode_len();
        let mut parts: Vec<CommandPart> = Vec::new();
        let mut i: usize = 0;
        let mut lit_start: usize = 0;
        proof {
            assert(s@.subrange(0, 0) =~= Seq::<char>::empty());
            assert(parts_view(parts@) =~= Seq::<PartView>::empty());
            assert(parts_view(parts@) + spec_scan(s@, 0, Seq::<char>::empty()) =~= spec_scan(
                s@,
                0,
                Seq::<char>::empty(),
            ));
        }
        while i < n
            invariant
                n == s@.len(),
                lit_start <= i <= n,
                spec_tokenize(s@) == parts_view(parts@) + spec_scan(
                    s@,
                    i as int,
                    s@.subrange(lit_start as int, i as int),
                ),
            decreases n - i,
        {
            let ghost lit = s@.subrange(lit_start as int, i as int);
            match placeholder_end(s, i) {
                Some(j) => {
                    proof {
                        lemma_word_end(s@, i as int + 2);
                    }
                    let ghost parts0 = parts_view(parts@);
                    if lit_start < i {
                        let t = s.substring_char(lit_start, i);
                        parts.push(CommandPart::Text(String::from_str(t)));
                        proof {
                            assert(parts_view(parts@) =~= parts0.push(PartView::Text(lit)));
                        }
                    }
                    let name = s.substring_char(i + 2, j);
                    let ghost parts1 = parts_view(parts@);
                    parts.push(CommandPart::Variable(String::from_str(name)));
                    proof {
                        assert(parts_view(parts@) =~= parts1.push(
                            PartView::Variable(placeholder_name(s@, i as int)),
                        ));
                        assert(parts1 =~= parts0 + flush_literal(lit));
                        assert(s@.subrange(j + 2, j + 2) =~= Seq::<char>::empty());
                        assert(parts_view(parts@) + spec_scan(s@, j + 2, Seq::<char>::empty())
                            =~= parts0 + (flush_literal(lit) + seq![
                            PartView::Variable(placeholder_name(s@, i as int)),
                        ] + spec_scan(s@, j + 2, Seq::<char>::empty())));
                    }
                    i = j + 2;
                    lit_start = i;
                }
                None => {
                    proof {
                        assert(lit.push(s@[i as int]) =~= s@.subrange(
                            lit_start as int,
                            i as int + 1,
                        ));
                    }
                    i = i + 1;
                },
            }
        }
        let ghost lit = s@.subrange(lit_start as int, n as int);
        if lit_start < n {
            let t = s.substring_char(lit_start, n);
            let ghost parts0 = parts_view(parts@);
            parts.push(CommandPart::Text(String::from_str(t)));
            proof {
                assert(parts_view(parts@) =~= parts0.push(PartView::Text(lit)));
                assert(parts0 + flush_literal(lit) =~= parts_view(parts@));
            }
        } else {
            proof {
                assert(lit.len() == 0);
                assert(parts_view(parts@) + flush_literal(lit) =~= parts_view(parts@));
            }
        }
        parts
    }

    /// The variable names referenced by this template, in order of
    /// appearance, duplicates preserved.
    pub fn extract_variables(&self) -> (names: Vec<String>)
        ensures
            strings_view(names@) == vars_of(parts_view(self.parts@)),
    {
        variable_names(&self.parts)
    }

    /// Writes the template back out, each placeholder as `{{name}}`.
    /// By the round-trip law this equals the raw string.
    pub fn current(&self) -> (s: String)
        ensures
            s@ == template_text(parts_view(self.parts@)),
            self.wf() ==> s@ == self.raw@,
    {
        let mut out = String::new();
        let n = self.parts.len();
        let mut idx: usize = 0;
        proof {
            assert(parts_view(self.parts@).take(0) =~= Seq::<PartView>::empty());
        }
        while idx < n
            invariant
                n == self.parts@.len(),
                idx <= n,
                out@ == template_text(parts_view(self.parts@).take(idx as int)),
            decreases n - idx,
        {
            let ghost pvs = parts_view(self.parts@);
            match &self.parts[idx] {
                CommandPart::Text(t) => {
                    out.append(t.as_str());
                },
                CommandPart::Variable(v) => {
                    append_placeholder(&mut out, v.as_str());
                },
            }
            proof {
                assert(pvs.take(idx as int + 1) =~= pvs.take(idx as int).push(pvs[idx as int]));
                lemma_template_text_push(pvs.take(idx as int), pvs[idx as int]);
            }
            idx = idx + 1;
        }
        proof {
            assert(parts_view(self.parts@).take(n as int) =~= parts_view(self.parts@));
            if self.wf() {
                lemma_tokenize_round_trip(self.raw@);
            }
        }
        out
    }

    /// Renders the final string: literals verbatim, each placeholder
    /// replaced by the value bound to its name in `values`, absent names
    /// by the empty string. Total: never fails.
    pub fn build_final_command(&self, values: &Vec<(String, String)>) -> (r: String)
        ensures
            r@ == spec_render(parts_view(self.parts@), pairs_view(values@)),
    {
        let mut out = String::new();
        let n = self.parts.len();
        let mut idx: usize = 0;
        proof {
            assert(parts_view(self.parts@).take(0) =~= Seq::<PartView>::empty());
        }
        while idx < n
            invariant
                n == self.parts@.len(),
                idx <= n,
                out@ == spec_render(parts_view(self.parts@).take(idx as int), pairs_view(values@)),
            decreases n - idx,
        {
            let ghost pvs = parts_view(self.parts@);
            match &self.parts[idx] {
                CommandPart::Text(t) => {
                    out.append(t.as_str());
                },
                CommandPart::Variable(v) => {
                    let val = lookup_value(values, v);
                    out.append(val.as_str());
                },
            }
            proof {
                assert(pvs.take(idx as int + 1) =~= pvs.take(idx as int).push(pvs[idx as int]));
                lemma_spec_render_push(pvs.take(idx as int), pvs[idx as int], pairs_view(values@));
            }
            idx = idx + 1;
        }
        proof {
            assert(parts_view(self.parts@).take(n as int) =~= parts_view(self.parts@));
        }
        out
    }

    /// Renames a variable across the whole template: produces the edited
    /// raw string (every `{{old_name}}` written as `{{new_name}}`) and
    /// re-tokenizes it.
    pub fn replace_variable_name(&mut self, old_name: &str, new_name: &str)
        ensures
            final(self).raw@ == template_text(
                rename_parts(parts_view(old(self).parts@), old_name@, new_name@),
            ),
            final(self).wf(),
    {
        let ghost renamed = rename_parts(parts_view(old(self).parts@), old_name@, new_name@);
        let mut out = String::new();
        let n = self.parts.len();
        let mut idx: usize = 0;
        proof {
            assert(renamed.take(0) =~= Seq::<PartView>::empty());
        }
        while idx < n
            invariant
                n == self.parts@.len(),
                self == old(self),
                renamed == rename_parts(parts_view(self.parts@), old_name@, new_name@),
                idx <= n,
                out@ == template_text(renamed.take(idx as int)),
            decreases n - idx,
        {
            let ghost pvs = parts_view(self.parts@);
            match &self.parts[idx] {
                CommandPart::Text(t) => {
                    out.append(t.as_str());
                },
                CommandPart::Variable(v) => {
                    if str_eq(v.as_str(), old_name) {
                        append_placeholder(&mut out, new_name);
                    } else {
                        append_placeholder(&mut out, v.as_str());
                    }
                },
            }
            proof {
                assert(renamed.take(idx as int + 1) =~= renamed.take(idx as int).push(
                    renamed[idx as int],
                ));
                lemma_template_text_push(renamed.take(idx as int), renamed[idx as int]);
            }
            idx = idx + 1;
        }
        proof {
            assert(renamed.take(n as int) =~= renamed);
        }
        let parts = Command::parse_parts(out.as_str());
        self.parts = parts;
        self.raw = out;
    }
}

/// Extracts variable names from a raw command string, in order of
/// appearance, duplicates preserved.
pub fn extract_variables_from_command(command: &str) -> (names: Vec<String>)
    ensures
        strings_view(names@) == vars_of(spec_tokenize(command@)),
{
    Command::new(String::from_str(command)).extract_variables()
}

} // verus!
