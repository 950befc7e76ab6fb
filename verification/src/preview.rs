//! Previews of models in completions: which request gets one, what it reads,
//! and which ones are kept.

use vstd::prelude::*;

use base64::Engine;

use crate::index::{effective_model, WorkspaceIndex};
use crate::text::{
    byte_len, bytes_in, chars_of, decimal, join2, join3, join5, lower, number, push_char, same,
    texts, to_lower,
};

verus! {

/// How many previews are kept.
pub const PREVIEW_CACHE_SIZE: usize = 64;

/// The digit of a number below 64 in the standard Base64 alphabet.
pub open spec fn sextet(n: int) -> char {
    if n < 26 {
        (('A' as int) + n) as char
    } else if n < 52 {
        (('a' as int) + (n - 26)) as char
    } else if n < 62 {
        (('0' as int) + (n - 52)) as char
    } else if n == 62 {
        '+'
    } else {
        '/'
    }
}

/// The standard Base64 form of `bytes`, with padding.
pub open spec fn base64_of(bytes: Seq<u8>) -> Seq<char>
    decreases bytes.len(),
{
    let a = bytes[0] as int;
    let b = bytes[1] as int;
    let c = bytes[2] as int;
    if bytes.len() == 0 {
        Seq::empty()
    } else if bytes.len() == 1 {
        seq![sextet(a / 4), sextet(a % 4 * 16), '=', '=']
    } else if bytes.len() == 2 {
        seq![sextet(a / 4), sextet(a % 4 * 16 + b / 16), sextet(b % 16 * 4), '=']
    } else {
        seq![
            sextet(a / 4),
            sextet(a % 4 * 16 + b / 16),
            sextet(b % 16 * 4 + c / 64),
            sextet(c % 64),
        ] + base64_of(bytes.skip(3))
    }
}

/// Calls `Engine::encode` of the `base64` crate on its engine `STANDARD`, which
/// gives the standard Base64 form with padding. The call panics where the
/// encoded length does not fit in `usize`.
#[verifier::external_body]
fn encode_base64(bytes: &[u8]) -> (r: String)
    requires
        bytes@.len() / 3 * 4 + 4 <= usize::MAX,
    ensures
        r@ == base64_of(bytes@),
{
    base64::engine::general_purpose::STANDARD.encode(bytes)
}

pub open spec fn needs_escape(c: char) -> bool {
    c == '\\' || c == '[' || c == ']' || c == '`'
}

/// `s` with a backslash before each scalar that Markdown would read.
pub open spec fn escaped(s: Seq<char>) -> Seq<char>
    decreases s.len(),
{
    if s.len() == 0 {
        Seq::empty()
    } else {
        let front = escaped(s.drop_last());
        if needs_escape(s.last()) {
            front.push('\\').push(s.last())
        } else {
            front.push(s.last())
        }
    }
}

/// Text for use in Markdown.
pub fn markdown_text(value: &str) -> (r: String)
    ensures
        r@ == escaped(value@),
{
    let chars = chars_of(value);
    let mut out = String::new();
    let mut i: usize = 0;
    assert(chars@.take(0) =~= Seq::empty());
    assert(out@ =~= escaped(chars@.take(0)));
    while i < chars.len()
        invariant
            i <= chars.len(),
            out@ == escaped(chars@.take(i as int)),
        decreases chars.len() - i,
    {
        let c = chars[i];
        assert(chars@.take(i + 1).drop_last() =~= chars@.take(i as int));
        if c == '\\' || c == '[' || c == ']' || c == '`' {
            push_char(&mut out, '\\');
        }
        push_char(&mut out, c);
        i += 1;
    }
    assert(chars@.take(i as int) =~= chars@);
    out
}

/// How many scalars of `s` get a backslash.
pub open spec fn escapes(s: Seq<char>) -> nat
    decreases s.len(),
{
    if s.len() == 0 {
        0
    } else {
        escapes(s.drop_last()) + (if needs_escape(s.last()) {
            1nat
        } else {
            0nat
        })
    }
}

/// What Markdown shows of a text: a backslash stands for the scalar behind it.
pub open spec fn shown(s: Seq<char>) -> Seq<char>
    decreases s.len(),
{
    if s.len() == 0 {
        Seq::empty()
    } else if s[0] == '\\' && s.len() > 1 {
        seq![s[1]] + shown(s.skip(2))
    } else {
        seq![s[0]] + shown(s.skip(1))
    }
}

proof fn lemma_shown_front(t: Seq<char>, rest: Seq<char>)
    ensures
        shown(escaped(t) + rest) == t + shown(rest),
    decreases t.len(),
{
    if t.len() == 0 {
        assert(escaped(t) + rest =~= rest);
        assert(t + shown(rest) =~= shown(rest));
    } else {
        let front = t.drop_last();
        let c = t.last();
        let piece = if needs_escape(c) {
            seq!['\\', c]
        } else {
            seq![c]
        };
        assert(escaped(t) =~= escaped(front) + piece);
        assert(escaped(t) + rest =~= escaped(front) + (piece + rest));
        lemma_shown_front(front, piece + rest);
        if needs_escape(c) {
            assert((piece + rest).skip(2) =~= rest);
        } else {
            assert((piece + rest).skip(1) =~= rest);
        }
        assert(shown(piece + rest) =~= seq![c] + shown(rest));
        assert(t =~= front.push(c));
        assert(t + shown(rest) =~= front + (seq![c] + shown(rest)));
    }
}

/// Markdown shows an escaped text as it was.
pub proof fn law_escaped_text_is_shown_as_it_was(s: Seq<char>)
    ensures
        shown(escaped(s)) == s,
{
    lemma_shown_front(s, Seq::empty());
    assert(escaped(s) + Seq::<char>::empty() =~= escaped(s));
    assert(s + shown(Seq::empty()) =~= s);
}

/// Escaping adds one backslash for each scalar that Markdown would read, and
/// nothing to a text without any.
pub proof fn law_escaping_adds_backslashes_only(s: Seq<char>)
    ensures
        escaped(s).len() == s.len() + escapes(s),
        (forall|k: int| 0 <= k < s.len() ==> !needs_escape(#[trigger] s[k])) ==> escaped(s) == s,
    decreases s.len(),
{
    if s.len() > 0 {
        law_escaping_adds_backslashes_only(s.drop_last());
        if forall|k: int| 0 <= k < s.len() ==> !needs_escape(#[trigger] s[k]) {
            assert forall|k: int| 0 <= k < s.drop_last().len() implies !needs_escape(
                #[trigger] s.drop_last()[k],
            ) by {
                assert(s.drop_last()[k] == s[k]);
            }
            assert(!needs_escape(s[s.len() - 1]));
            assert(escaped(s) =~= s.drop_last().push(s.last()));
            assert(s.drop_last().push(s.last()) =~= s);
        }
    } else {
        assert(escaped(s) =~= s);
    }
}

/// A name in code marks.
pub open spec fn code_of(name: Seq<char>) -> Seq<char> {
    "`"@ + escaped(name) + "`"@
}

/// The first names of `names`, each in code marks, from name `i` to `end`.
pub open spec fn shown_names(names: Seq<Seq<char>>, i: int, end: int) -> Seq<char>
    decreases end - i,
{
    if i >= end {
        Seq::empty()
    } else if i == 0 {
        code_of(names[i]) + shown_names(names, i + 1, end)
    } else {
        ", "@ + code_of(names[i]) + shown_names(names, i + 1, end)
    }
}

pub open spec fn shown_count(n: int) -> int {
    if n < 3 {
        n
    } else {
        3
    }
}

/// The line about textures that were not found.
pub open spec fn missing_note(names: Seq<Seq<char>>) -> Seq<char> {
    let n = names.len() as int;
    if n == 0 {
        Seq::empty()
    } else {
        "\n\nMissing texture"@ + (if n == 1 {
            ""@
        } else {
            "s"@
        }) + ": "@ + shown_names(names, 0, shown_count(n)) + (if n > 3 {
            " and "@ + decimal((n - 3) as nat) + " more"@
        } else {
            Seq::empty()
        })
    }
}

/// The preview of a model: its image, its name, and what it misses.
pub open spec fn preview_of(
    model: Seq<char>,
    png: Seq<u8>,
    image_width: int,
    missing: Seq<Seq<char>>,
) -> Seq<char> {
    let label = escaped(model);
    ("!["@ + label + " model preview](data:image/png;base64,"@ + base64_of(png) + "|width="@)
        + decimal(image_width as nat) + ")\n\n`"@ + label + "`"@ + missing_note(missing)
}

fn missing_text(missing: &Vec<String>) -> (r: String)
    ensures
        r@ == missing_note(texts(missing@)),
{
    let ghost names = texts(missing@);
    if missing.len() == 0 {
        return String::new();
    }
    let end: usize = if missing.len() < 3 {
        missing.len()
    } else {
        3
    };
    let mut shown = String::new();
    let ghost whole = shown_names(names, 0, end as int);
    let mut i: usize = 0;
    assert(shown@ + shown_names(names, 0, end as int) =~= whole);
    while i < end
        invariant
            i <= end <= missing.len(),
            names == texts(missing@),
            whole == shown_names(names, 0, end as int),
            shown@ + shown_names(names, i as int, end as int) == whole,
        decreases end - i,
    {
        let ghost before = shown@;
        let label = markdown_text(missing[i].as_str());
        let code = join3("`", label.as_str(), "`");
        assert(names[i as int] == missing@[i as int]@);
        if i > 0 {
            shown.append(", ");
        }
        shown.append(code.as_str());
        assert(shown@ + shown_names(names, i + 1, end as int) =~= before + shown_names(
            names,
            i as int,
            end as int,
        ));
        i += 1;
    }
    assert(shown@ + shown_names(names, i as int, end as int) =~= shown@);
    let ending = if missing.len() == 1 {
        ""
    } else {
        "s"
    };
    let mut out = join3("\n\nMissing texture", ending, ": ");
    out.append(shown.as_str());
    if missing.len() > 3 {
        let more = number(missing.len() - 3);
        let tail = join3(" and ", more.as_str(), " more");
        out.append(tail.as_str());
    } else {
        assert(out@ + Seq::<char>::empty() =~= out@);
    }
    out
}

/// The Markdown of a rendered preview.
pub fn preview_markdown(model: &str, png: &[u8], image_width: u32, missing: &Vec<String>) -> (r:
    String)
    requires
        png@.len() / 3 * 4 + 4 <= usize::MAX,
    ensures
        r@ == preview_of(model@, png@, image_width as int, texts(missing@)),
{
    let label = markdown_text(model);
    let encoded = encode_base64(png);
    let width = number(image_width as usize);
    let front = join5(
        "![",
        label.as_str(),
        " model preview](data:image/png;base64,",
        encoded.as_str(),
        "|width=",
    );
    let named = join5(front.as_str(), width.as_str(), ")\n\n`", label.as_str(), "`");
    let note = missing_text(missing);
    join2(named.as_str(), note.as_str())
}

/// The text in place of a preview that cannot be drawn.
pub fn preview_unavailable() -> (r: &'static str)
    ensures
        r@ == "_Preview unavailable: unsupported or malformed W3D data._"@,
{
    "_Preview unavailable: unsupported or malformed W3D data._"
}

/// The previews that are kept, the oldest first.
#[derive(Debug)]
pub struct PreviewCache {
    items: Vec<(String, String)>,
    generation: u64,
}

/// The model of a [`PreviewCache`].
#[verifier::ext_equal]
pub struct CacheView {
    /// Key and preview, in the order in which the keys came.
    pub items: Seq<(Seq<char>, Seq<char>)>,
    pub generation: u64,
}

impl View for PreviewCache {
    type V = CacheView;

    closed spec fn view(&self) -> CacheView {
        CacheView {
            items: self.items@.map_values(|e: (String, String)| (e.0@, e.1@)),
            generation: self.generation,
        }
    }
}

/// Where `key` stands in `items`, from item `from` on; their length if nowhere.
pub open spec fn key_at(items: Seq<(Seq<char>, Seq<char>)>, key: Seq<char>, from: int) -> int
    decreases items.len() - from,
{
    if from >= items.len() || from < 0 {
        items.len() as int
    } else if items[from].0 == key {
        from
    } else {
        key_at(items, key, from + 1)
    }
}

impl CacheView {
    /// No more than the cache holds, each key once.
    pub open spec fn wf(self) -> bool {
        &&& self.items.len() <= PREVIEW_CACHE_SIZE
        &&& forall|i: int, j: int|
            0 <= i < j < self.items.len() ==> (#[trigger] self.items[i]).0 != (
            #[trigger] self.items[j]).0
    }

    /// The preview kept under `key`.
    pub open spec fn lookup(self, key: Seq<char>) -> Option<Seq<char>> {
        let i = key_at(self.items, key, 0);
        if i < self.items.len() {
            Some(self.items[i].1)
        } else {
            None
        }
    }

    /// The items after a preview made in `generation` came: a preview of
    /// another generation is stale; a known key gets the new preview; a new
    /// key takes the place of the oldest where the cache is full.
    pub open spec fn with(self, generation: u64, key: Seq<char>, markdown: Seq<char>) -> CacheView {
        let i = key_at(self.items, key, 0);
        if self.generation != generation {
            self
        } else if i < self.items.len() {
            CacheView { items: self.items.update(i, (key, markdown)), ..self }
        } else if self.items.len() == PREVIEW_CACHE_SIZE {
            CacheView { items: self.items.skip(1).push((key, markdown)), ..self }
        } else {
            CacheView { items: self.items.push((key, markdown)), ..self }
        }
    }
}

pub proof fn lemma_key_at(items: Seq<(Seq<char>, Seq<char>)>, key: Seq<char>, from: int)
    requires
        0 <= from <= items.len(),
    ensures
        from <= key_at(items, key, from) <= items.len(),
        key_at(items, key, from) < items.len() ==> items[key_at(items, key, from)].0 == key,
        forall|k: int|
            from <= k < key_at(items, key, from) ==> (#[trigger] items[k]).0 != key,
    decreases items.len() - from,
{
    if from < items.len() && items[from].0 != key {
        lemma_key_at(items, key, from + 1);
    }
}

impl PreviewCache {
    /// An empty cache.
    pub fn new() -> (r: PreviewCache)
        ensures
            r@.wf(),
            r@.items.len() == 0,
            r@.generation == 0,
    {
        PreviewCache { items: Vec::new(), generation: 0 }
    }

    /// The generation that a preview has to be made in to be kept.
    pub fn generation(&self) -> (r: u64)
        ensures
            r == self@.generation,
    {
        self.generation
    }

    fn position(&self, key: &str) -> (r: usize)
        ensures
            r == key_at(self@.items, key@, 0),
            self@.items.len() == self.items.len(),
    {
        let ghost items = self@.items;
        let mut i: usize = 0;
        while i < self.items.len()
            invariant
                i <= self.items.len(),
                items == self@.items,
                items.len() == self.items.len(),
                key_at(items, key@, 0) == key_at(items, key@, i as int),
            decreases self.items.len() - i,
        {
            assert(items[i as int].0 == self.items@[i as int].0@);
            if same(self.items[i].0.as_str(), key) {
                return i;
            }
            i += 1;
        }
        i
    }

    /// The preview kept under `key`.
    pub fn get(&self, key: &str) -> (r: Option<String>)
        ensures
            (match r {
                Some(s) => Some(s@),
                None => None,
            }) == self@.lookup(key@),
    {
        let i = self.position(key);
        if i < self.items.len() {
            assert(self@.items[i as int].1 == self.items@[i as int].1@);
            Some(self.items[i].1.clone())
        } else {
            None
        }
    }

    /// Keeps a preview that was made in `generation`.
    pub fn insert(&mut self, generation: u64, key: String, markdown: String)
        requires
            old(self)@.wf(),
        ensures
            final(self)@.wf(),
            final(self)@ == old(self)@.with(generation, key@, markdown@),
    {
        let ghost before = self@;
        proof {
            lemma_key_at(before.items, key@, 0);
        }
        if self.generation != generation {
            return;
        }
        let i = self.position(key.as_str());
        if i < self.items.len() {
            let ghost entry = (key@, markdown@);
            self.items.set(i, (key, markdown));
            assert(self@.items =~= before.items.update(i as int, entry));
            assert(self@ =~= before.with(generation, entry.0, entry.1));
            return;
        }
        let ghost entry = (key@, markdown@);
        if self.items.len() == PREVIEW_CACHE_SIZE {
            let oldest = self.items.remove(0);
            assert(self@.items =~= before.items.skip(1));
            self.items.push((key, markdown));
            assert(self@.items =~= before.items.skip(1).push(entry));
        } else {
            self.items.push((key, markdown));
            assert(self@.items =~= before.items.push(entry));
        }
        assert(self@ =~= before.with(generation, entry.0, entry.1));
    }

    /// Drops every preview, and every one that is still being made.
    pub fn clear(&mut self)
        ensures
            final(self)@.wf(),
            final(self)@.items.len() == 0,
            final(self)@.generation == old(self)@.generation.wrapping_add(1),
    {
        self.items.clear();
        self.generation = self.generation.wrapping_add(1);
    }
}

impl Default for PreviewCache {
    fn default() -> (r: PreviewCache)
        ensures
            r@.wf(),
            r@.items.len() == 0,
            r@.generation == 0,
    {
        PreviewCache::new()
    }
}

/// A preview that was kept is found again, and keeping it drops at most the
/// oldest other one.
pub proof fn law_kept_preview_is_found(c: CacheView, key: Seq<char>, markdown: Seq<char>)
    requires
        c.wf(),
    ensures
        c.with(c.generation, key, markdown).wf(),
        c.with(c.generation, key, markdown).lookup(key) == Some(markdown),
        forall|other: Seq<char>|
            other != key && !(c.items.len() == PREVIEW_CACHE_SIZE && c.items[0].0 == other)
                ==> c.with(c.generation, key, markdown).lookup(other) == c.lookup(other),
{
    let next = c.with(c.generation, key, markdown);
    lemma_key_at(c.items, key, 0);
    lemma_key_at(next.items, key, 0);
    let at = key_at(c.items, key, 0);
    if at < c.items.len() {
        assert(next.items[at].0 == key);
    } else {
        assert(next.items[next.items.len() - 1].0 == key);
    }
    assert forall|other: Seq<char>|
        other != key && !(c.items.len() == PREVIEW_CACHE_SIZE && c.items[0].0
            == other) implies #[trigger] next.lookup(other) == c.lookup(other) by {
        lemma_key_at(c.items, other, 0);
        lemma_key_at(next.items, other, 0);
        let i = key_at(c.items, other, 0);
        let j = key_at(next.items, other, 0);
        let shift: int = if at == c.items.len() && c.items.len() == PREVIEW_CACHE_SIZE {
            1
        } else {
            0
        };
        if i < c.items.len() {
            assert(next.items[i - shift].0 == other);
        }
        if j < next.items.len() {
            assert(c.items[j + shift].0 == other);
        }
    }
}

/// A preview that was being made when the cache was cleared is not kept.
pub proof fn law_stale_preview_is_dropped(
    before: CacheView,
    after: CacheView,
    key: Seq<char>,
    markdown: Seq<char>,
)
    requires
        after.items.len() == 0,
        after.generation == before.generation.wrapping_add(1),
    ensures
        after.with(before.generation, key, markdown) == after,
        after.lookup(key) is None,
{
}

/// What a request for a completion's details carries, where it is the
/// server's own.
pub open spec fn is_preview_request(tag: Seq<char>, model: Seq<char>) -> bool {
    tag == "w3d-model-preview"@ && model.len() > 0 && byte_len(model) <= 256
}

/// The key that a preview is kept under.
pub open spec fn key_of(model: Seq<char>, source: Seq<char>, width: int, zoom: int) -> Seq<char> {
    lower(model) + "\0"@ + source + "\0"@ + decimal(width as nat) + "\0"@ + decimal(zoom as nat)
}

fn preview_key(model: &str, source: &str, width: u32, zoom: u32) -> (r: String)
    ensures
        r@ == key_of(model@, source@, width as int, zoom as int),
{
    let folded = to_lower(model);
    let w = number(width as usize);
    let z = number(zoom as usize);
    let front = join5(folded.as_str(), "\0", source, "\0", w.as_str());
    join3(front.as_str(), "\0", z.as_str())
}

/// The answer to a request for a completion's details.
#[derive(Debug)]
pub enum PreviewStep {
    /// Give the item back as it came.
    Unchanged,
    /// Give the item back without documentation.
    NoDocumentation,
    /// Give the item back with this documentation.
    Show(String),
    /// Draw the model in `source`, keep the preview under `key` with
    /// `generation`, and give the item back with it.
    Render { source: String, key: String, generation: u64 },
}

/// The model of a [`PreviewStep`].
pub enum StepView {
    Unchanged,
    NoDocumentation,
    Show(Seq<char>),
    Render { source: Seq<char>, key: Seq<char>, generation: u64 },
}

impl View for PreviewStep {
    type V = StepView;

    open spec fn view(&self) -> StepView {
        match self {
            PreviewStep::Unchanged => StepView::Unchanged,
            PreviewStep::NoDocumentation => StepView::NoDocumentation,
            PreviewStep::Show(s) => StepView::Show(s@),
            PreviewStep::Render { source, key, generation } => StepView::Render {
                source: source@,
                key: key@,
                generation: *generation,
            },
        }
    }
}

pub open spec fn step_of(
    index: WorkspaceIndex,
    cache: CacheView,
    request: Option<(Seq<char>, Seq<char>)>,
    enabled: bool,
    width: int,
    zoom: int,
) -> StepView {
    match request {
        None => StepView::Unchanged,
        Some((tag, model)) => {
            if !is_preview_request(tag, model) {
                StepView::Unchanged
            } else {
                match effective_model(index.model_rows(), lower(model)) {
                    None => StepView::Unchanged,
                    Some(entry) => {
                        let key = key_of(model, entry.file, width, zoom);
                        if !enabled {
                            StepView::NoDocumentation
                        } else {
                            match cache.lookup(key) {
                                Some(markdown) => StepView::Show(markdown),
                                None => StepView::Render {
                                    source: entry.file,
                                    key,
                                    generation: cache.generation,
                                },
                            }
                        }
                    },
                }
            }
        },
    }
}

/// Decides what to answer to a request for a completion's details. `request`
/// is the tag and the model that the request carries.
pub fn resolve_preview(
    index: &WorkspaceIndex,
    cache: &PreviewCache,
    request: Option<(&str, &str)>,
    enabled: bool,
    width: u32,
    zoom: u32,
) -> (r: PreviewStep)
    ensures
        r@ == step_of(
            *index,
            cache@,
            (match request {
                Some((tag, model)) => Some((tag@, model@)),
                None => None,
            }),
            enabled,
            width as int,
            zoom as int,
        ),
{
    match request {
        None => PreviewStep::Unchanged,
        Some((tag, model)) => {
            if !same(tag, "w3d-model-preview") || model.unicode_len() == 0 || bytes_in(model)
                > 256 {
                return PreviewStep::Unchanged;
            }
            match index.effective_model_source(model) {
                None => PreviewStep::Unchanged,
                Some(source) => {
                    if !enabled {
                        return PreviewStep::NoDocumentation;
                    }
                    let key = preview_key(model, source.as_str(), width, zoom);
                    match cache.get(key.as_str()) {
                        Some(markdown) => PreviewStep::Show(markdown),
                        None => PreviewStep::Render { source, key, generation: cache.generation() },
                    }
                },
            }
        },
    }
}

} // verus!
