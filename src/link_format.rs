//! CoRE link format (RFC 6690) text for discovery, written through coap_lite's writer.
use coap_lite::link_format::LinkFormatWrite;
use crate::coap_utils::pairs_view;
use vstd::prelude::*;
use vstd::string::StrSliceExecFns;

verus! {

/// One link: a target path and its attributes, in order.
#[derive(Debug)]
pub struct Link {
    pub path: String,
    pub attributes: Vec<(String, String)>,
}

/// The view of a link: its path and its attribute pairs.
pub open spec fn link_view(l: Link) -> (Seq<char>, Seq<(Seq<char>, Seq<char>)>) {
    (l.path@, pairs_view(l.attributes@))
}

pub open spec fn links_view(v: Seq<Link>) -> Seq<(Seq<char>, Seq<(Seq<char>, Seq<char>)>)> {
    v.map_values(|l: Link| link_view(l))
}

/// A key that the writer accepts and a reader can pass over (RFC 6690 parameter names are
/// tokens): no `=`, no ASCII whitespace, no comma, quote or `<`.
pub open spec fn is_attr_key(k: Seq<char>) -> bool {
    forall|i: int|
        0 <= i < k.len() ==> #[trigger] k[i] != '=' && k[i] != ' ' && k[i] != '\t' && k[i] != '\n' && k[i]
            != '\x0C' && k[i] != '\r' && k[i] != ',' && k[i] != '"' && k[i] != '<'
}

/// Every attribute key of every link is one the writer accepts.
pub open spec fn links_well_keyed(links: Seq<(Seq<char>, Seq<(Seq<char>, Seq<char>)>)>) -> bool {
    forall|i: int, j: int|
        0 <= i < links.len() && 0 <= j < links[i].1.len() ==> is_attr_key(#[trigger] links[i].1[j].0)
}

/// Whether the writer accepts `k` as a key.
pub fn check_attr_key(k: &str) -> (r: bool)
    ensures
        r == is_attr_key(k@),
{
    let n = k.unicode_len();
    let mut i: usize = 0;
    while i < n
        invariant
            n == k@.len(),
            i <= n,
            forall|j: int|
                0 <= j < i ==> #[trigger] k@[j] != '=' && k@[j] != ' ' && k@[j] != '\t' && k@[j] != '\n'
                    && k@[j] != '\x0C' && k@[j] != '\r' && k@[j] != ',' && k@[j] != '"' && k@[j] != '<',
        decreases n - i,
    {
        let c = k.get_char(i);
        if c == '=' || c == ' ' || c == '\t' || c == '\n' || c == '\x0C' || c == '\r' || c == ','
            || c == '"' || c == '<' {
            return false;
        }
        i = i + 1;
    }
    true
}

/// ASCII letters and digits only; such a value is written without quotes.
pub open spec fn is_plain_value(v: Seq<char>) -> bool {
    forall|i: int|
        0 <= i < v.len() ==> ('a' <= #[trigger] v[i] <= 'z' || 'A' <= v[i] <= 'Z' || '0' <= v[i]
            <= '9')
}

/// `v` with a backslash before each `"` and `\`.
pub open spec fn escape_quoted(v: Seq<char>) -> Seq<char>
    decreases v.len(),
{
    if v.len() == 0 {
        Seq::empty()
    } else {
        let c = v.last();
        escape_quoted(v.drop_last()) + if c == '"' || c == '\\' {
            seq!['\\', c]
        } else {
            seq![c]
        }
    }
}

/// `;key=value`, the value quoted and escaped unless it is plain.
pub open spec fn attr_text(key: Seq<char>, value: Seq<char>) -> Seq<char> {
    seq![';'] + key + seq!['='] + if is_plain_value(value) {
        value
    } else {
        seq!['"'] + escape_quoted(value) + seq!['"']
    }
}

pub open spec fn attrs_text(attrs: Seq<(Seq<char>, Seq<char>)>) -> Seq<char>
    decreases attrs.len(),
{
    if attrs.len() == 0 {
        Seq::empty()
    } else {
        attrs_text(attrs.drop_last()) + attr_text(attrs.last().0, attrs.last().1)
    }
}

/// `<path>` followed by the attributes.
pub open spec fn link_text(l: (Seq<char>, Seq<(Seq<char>, Seq<char>)>)) -> Seq<char> {
    seq!['<'] + l.0 + seq!['>'] + attrs_text(l.1)
}

/// The links, separated by commas.
pub open spec fn links_text(links: Seq<(Seq<char>, Seq<(Seq<char>, Seq<char>)>)>) -> Seq<char>
    decreases links.len(),
{
    if links.len() == 0 {
        Seq::empty()
    } else if links.len() == 1 {
        link_text(links[0])
    } else {
        links_text(links.drop_last()) + seq![','] + link_text(links.last())
    }
}

/// The text of a list of links is empty exactly when the list is.
pub proof fn lemma_links_text_empty(links: Seq<(Seq<char>, Seq<(Seq<char>, Seq<char>)>)>)
    ensures
        links_text(links).len() == 0 <==> links.len() == 0,
{
    if links.len() == 1 {
        assert(link_text(links[0])[0] == '<');
    } else if links.len() > 1 {
        assert(links_text(links).len() >= 1);
    }
}

/// Index of the first `c` in `t`, or its length.
pub open spec fn index_of(t: Seq<char>, c: char) -> int
    decreases t.len(),
{
    if t.len() == 0 {
        0
    } else if t[0] == c {
        0
    } else {
        1 + index_of(t.drop_first(), c)
    }
}

/// What a link's text targets: the text between its leading `<` and its first `>`.
pub open spec fn link_target(t: Seq<char>) -> Seq<char> {
    t.subrange(1, index_of(t, '>'))
}

/// Where a reader of link-format text stands: between links or attributes, inside a `<...>`
/// target, inside a quoted value, or just after a backslash in one.
#[derive(Debug, Clone, Copy, PartialEq, Eq, Structural)]
pub enum ReadState {
    Outside,
    Target,
    Quoted,
    Escaped,
}

pub open spec fn read_step(st: ReadState, c: char) -> ReadState {
    match st {
        ReadState::Outside => if c == '<' {
            ReadState::Target
        } else if c == '"' {
            ReadState::Quoted
        } else {
            ReadState::Outside
        },
        ReadState::Target => if c == '>' {
            ReadState::Outside
        } else {
            ReadState::Target
        },
        ReadState::Quoted => if c == '\\' {
            ReadState::Escaped
        } else if c == '"' {
            ReadState::Outside
        } else {
            ReadState::Quoted
        },
        ReadState::Escaped => ReadState::Quoted,
    }
}

/// The reader's state after reading `t` from `st`.
pub open spec fn read_run(st: ReadState, t: Seq<char>) -> ReadState
    decreases t.len(),
{
    if t.len() == 0 {
        st
    } else {
        read_step(read_run(st, t.drop_last()), t.last())
    }
}

/// The pieces of `t` between the commas that stand outside targets and quoted values.
pub open spec fn split_links(t: Seq<char>) -> Seq<Seq<char>>
    decreases t.len(),
{
    if t.len() == 0 {
        seq![Seq::empty()]
    } else {
        let rest = split_links(t.drop_last());
        if t.last() == ',' && read_run(ReadState::Outside, t.drop_last()) == ReadState::Outside {
            rest.push(Seq::empty())
        } else {
            rest.update(rest.len() - 1, rest.last().push(t.last()))
        }
    }
}

/// Reads a link-format document back: split at the commas between links, the target of each.
pub open spec fn parsed_targets(doc: Seq<char>) -> Seq<Seq<char>> {
    if doc.len() == 0 {
        Seq::empty()
    } else {
        split_links(doc).map_values(|t: Seq<char>| link_target(t))
    }
}

/// Reading `t` from `st` meets no comma while outside targets and quoted values.
pub open spec fn quiet(st: ReadState, t: Seq<char>) -> bool {
    forall|i: int|
        0 <= i < t.len() && #[trigger] t[i] == ',' ==> read_run(st, t.subrange(0, i)) != ReadState::Outside
}

proof fn lemma_run_concat(st: ReadState, a: Seq<char>, b: Seq<char>)
    ensures
        read_run(st, a + b) == read_run(read_run(st, a), b),
    decreases b.len(),
{
    if b.len() == 0 {
        assert(a + b =~= a);
    } else {
        lemma_run_concat(st, a, b.drop_last());
        assert((a + b).drop_last() =~= a + b.drop_last());
    }
}

proof fn lemma_quiet_concat(st: ReadState, a: Seq<char>, b: Seq<char>)
    requires
        quiet(st, a),
        quiet(read_run(st, a), b),
    ensures
        quiet(st, a + b),
{
    assert forall|i: int| 0 <= i < (a + b).len() && #[trigger] (a + b)[i] == ',' implies read_run(
        st,
        (a + b).subrange(0, i),
    ) != ReadState::Outside by {
        if i < a.len() {
            assert((a + b).subrange(0, i) =~= a.subrange(0, i));
            assert(a[i] == ',');
        } else {
            let j = i - a.len();
            assert((a + b).subrange(0, i) =~= a + b.subrange(0, j));
            lemma_run_concat(st, a, b.subrange(0, j));
            assert(b[j] == ',');
        }
    }
}

proof fn lemma_quiet_whole(t: Seq<char>)
    requires
        quiet(ReadState::Outside, t),
    ensures
        split_links(t) == seq![t],
    decreases t.len(),
{
    if t.len() > 0 {
        let d = t.drop_last();
        assert(quiet(ReadState::Outside, d)) by {
            assert forall|i: int| 0 <= i < d.len() && #[trigger] d[i] == ',' implies read_run(
                ReadState::Outside,
                d.subrange(0, i),
            ) != ReadState::Outside by {
                assert(t[i] == ',');
                assert(t.subrange(0, i) =~= d.subrange(0, i));
            }
        }
        lemma_quiet_whole(d);
        if t.last() == ',' {
            assert(t[t.len() - 1] == ',');
            assert(t.subrange(0, t.len() - 1) =~= d);
        }
        assert(d.push(t.last()) =~= t);
        assert(split_links(t) =~= seq![t]);
    } else {
        assert(t =~= Seq::<char>::empty());
    }
}

proof fn lemma_split_links_concat(a: Seq<char>, b: Seq<char>)
    requires
        read_run(ReadState::Outside, a) == ReadState::Outside,
    ensures
        split_links(a + seq![','] + b) == split_links(a) + split_links(b),
    decreases b.len(),
{
    let s = a + seq![','] + b;
    lemma_run_concat(ReadState::Outside, a + seq![','], b.drop_last());
    assert(read_run(ReadState::Outside, a + seq![',']) == ReadState::Outside) by {
        assert((a + seq![',']).drop_last() =~= a);
    }
    lemma_split_links_nonempty(a);
    if b.len() == 0 {
        assert(s.drop_last() =~= a);
        assert(split_links(s) =~= split_links(a) + split_links(b));
    } else {
        assert(s.drop_last() =~= a + seq![','] + b.drop_last());
        lemma_split_links_concat(a, b.drop_last());
        lemma_split_links_nonempty(b.drop_last());
        assert(s.last() == b.last());
        let x = split_links(b.drop_last());
        if b.last() == ',' && read_run(ReadState::Outside, b.drop_last()) == ReadState::Outside {
            assert(split_links(s) =~= split_links(a) + split_links(b));
        } else {
            assert((split_links(a) + x).update(
                (split_links(a) + x).len() - 1,
                (split_links(a) + x).last().push(b.last()),
            ) =~= split_links(a) + x.update(x.len() - 1, x.last().push(b.last())));
            assert(split_links(s) =~= split_links(a) + split_links(b));
        }
    }
}

proof fn lemma_split_links_nonempty(t: Seq<char>)
    ensures
        split_links(t).len() >= 1,
    decreases t.len(),
{
    if t.len() > 0 {
        lemma_split_links_nonempty(t.drop_last());
    }
}

/// A key the reader passes over: no comma, quote or `<`.
pub open spec fn is_token_key(k: Seq<char>) -> bool {
    !k.contains(',') && !k.contains('"') && !k.contains('<')
}

/// A key the writer accepts is one the reader passes over.
pub proof fn lemma_attr_key_is_token(k: Seq<char>)
    requires
        is_attr_key(k),
    ensures
        is_token_key(k),
{
    assert forall|c: char| (c == ',' || c == '"' || c == '<') implies !k.contains(c) by {
        if k.contains(c) {
            let i = choose|i: int| 0 <= i < k.len() && k[i] == c;
        }
    }
}

/// A link the reader reads back: its path has no `>`, its keys are tokens.
pub open spec fn readable_link(l: (Seq<char>, Seq<(Seq<char>, Seq<char>)>)) -> bool {
    &&& !l.0.contains('>')
    &&& forall|j: int| 0 <= j < l.1.len() ==> is_token_key(#[trigger] l.1[j].0)
}

proof fn lemma_drop_last_lacks(t: Seq<char>, c: char)
    requires
        t.len() > 0,
        !t.contains(c),
    ensures
        !t.drop_last().contains(c),
        t.last() != c,
{
    if t.drop_last().contains(c) {
        let i = choose|i: int| 0 <= i < t.drop_last().len() && t.drop_last()[i] == c;
        assert(t[i] == c);
    }
    assert(t[t.len() - 1] == t.last());
}

/// Text with no `<`, quote or comma leaves the reader outside, meeting no comma.
proof fn lemma_plain_run(t: Seq<char>)
    requires
        !t.contains('<'),
        !t.contains('"'),
        !t.contains(','),
    ensures
        read_run(ReadState::Outside, t) == ReadState::Outside,
        quiet(ReadState::Outside, t),
    decreases t.len(),
{
    if t.len() > 0 {
        lemma_drop_last_lacks(t, '<');
        lemma_drop_last_lacks(t, '"');
        lemma_drop_last_lacks(t, ',');
        lemma_plain_run(t.drop_last());
    }
    assert forall|i: int| 0 <= i < t.len() && #[trigger] t[i] == ',' implies read_run(
        ReadState::Outside,
        t.subrange(0, i),
    ) != ReadState::Outside by {
        assert(t.contains(','));
    }
}

/// Inside a target, text with no `>` keeps the reader there.
proof fn lemma_target_run(p: Seq<char>)
    requires
        !p.contains('>'),
    ensures
        read_run(ReadState::Target, p) == ReadState::Target,
        quiet(ReadState::Target, p),
    decreases p.len(),
{
    if p.len() > 0 {
        lemma_drop_last_lacks(p, '>');
        lemma_target_run(p.drop_last());
    }
    assert forall|i: int| 0 <= i < p.len() && #[trigger] p[i] == ',' implies read_run(
        ReadState::Target,
        p.subrange(0, i),
    ) != ReadState::Outside by {
        assert(!p.subrange(0, i).contains('>')) by {
            if p.subrange(0, i).contains('>') {
                let k = choose|k: int| 0 <= k < i && p.subrange(0, i)[k] == '>';
                assert(p[k] == '>');
            }
        }
        lemma_target_run(p.subrange(0, i));
    }
}

/// Inside a quoted value, an escaped value keeps the reader there.
proof fn lemma_escaped_run(v: Seq<char>)
    ensures
        read_run(ReadState::Quoted, escape_quoted(v)) == ReadState::Quoted,
        quiet(ReadState::Quoted, escape_quoted(v)),
    decreases v.len(),
{
    if v.len() > 0 {
        lemma_escaped_run(v.drop_last());
        let e = escape_quoted(v.drop_last());
        let c = v.last();
        let piece = if c == '"' || c == '\\' {
            seq!['\\', c]
        } else {
            seq![c]
        };
        assert(escape_quoted(v) == e + piece);
        lemma_run_concat(ReadState::Quoted, e, piece);
        if c == '"' || c == '\\' {
            lemma_run_one(ReadState::Quoted, '\\');
            lemma_run_one(ReadState::Escaped, c);
            lemma_run_concat(ReadState::Quoted, seq!['\\'], seq![c]);
            assert(piece =~= seq!['\\'] + seq![c]);
            lemma_quiet_concat(ReadState::Quoted, seq!['\\'], seq![c]);
        } else {
            lemma_run_one(ReadState::Quoted, c);
        }
        lemma_quiet_concat(ReadState::Quoted, e, piece);
    } else {
        assert(escape_quoted(v) =~= Seq::<char>::empty());
    }
}

/// Reading one character `c` from `st`, alone.
proof fn lemma_run_one(st: ReadState, c: char)
    ensures
        read_run(st, seq![c]) == read_step(st, c),
        c != ',' || st != ReadState::Outside ==> quiet(st, seq![c]),
{
    assert(seq![c].drop_last() =~= Seq::<char>::empty());
    assert(seq![c].last() == c);
    assert(read_run(st, Seq::<char>::empty()) == st);
    assert(seq![c].subrange(0, 0) =~= Seq::<char>::empty());
}

proof fn lemma_quoted_part(v: Seq<char>)
    ensures
        read_run(ReadState::Outside, seq!['"'] + escape_quoted(v) + seq!['"']) == ReadState::Outside,
        quiet(ReadState::Outside, seq!['"'] + escape_quoted(v) + seq!['"']),
{
    let e = escape_quoted(v);
    lemma_escaped_run(v);
    lemma_run_one(ReadState::Outside, '"');
    lemma_run_one(ReadState::Quoted, '"');
    lemma_run_concat(ReadState::Outside, seq!['"'], e);
    lemma_quiet_concat(ReadState::Outside, seq!['"'], e);
    lemma_run_concat(ReadState::Outside, seq!['"'] + e, seq!['"']);
    lemma_quiet_concat(ReadState::Outside, seq!['"'] + e, seq!['"']);
}

proof fn lemma_attr_head(k: Seq<char>)
    requires
        is_token_key(k),
    ensures
        read_run(ReadState::Outside, seq![';'] + k + seq!['=']) == ReadState::Outside,
        quiet(ReadState::Outside, seq![';'] + k + seq!['=']),
{
    let head = seq![';'] + k + seq!['='];
    assert forall|c: char| (c == '<' || c == '"' || c == ',') implies !head.contains(c) by {
        if head.contains(c) {
            let i = choose|i: int| 0 <= i < head.len() && head[i] == c;
            if 1 <= i < 1 + k.len() {
                assert(k[i - 1] == c);
                assert(k.contains(c));
            }
        }
    }
    lemma_plain_run(head);
}

proof fn lemma_plain_value(v: Seq<char>)
    requires
        is_plain_value(v),
    ensures
        read_run(ReadState::Outside, v) == ReadState::Outside,
        quiet(ReadState::Outside, v),
{
    assert forall|c: char| (c == '<' || c == '"' || c == ',') implies !v.contains(c) by {
        if v.contains(c) {
            let i = choose|i: int| 0 <= i < v.len() && v[i] == c;
            assert('a' <= v[i] <= 'z' || 'A' <= v[i] <= 'Z' || '0' <= v[i] <= '9');
        }
    }
    lemma_plain_run(v);
}

proof fn lemma_attr_run(k: Seq<char>, v: Seq<char>)
    requires
        is_token_key(k),
    ensures
        read_run(ReadState::Outside, attr_text(k, v)) == ReadState::Outside,
        quiet(ReadState::Outside, attr_text(k, v)),
{
    let head = seq![';'] + k + seq!['='];
    lemma_attr_head(k);
    let tail = if is_plain_value(v) {
        v
    } else {
        seq!['"'] + escape_quoted(v) + seq!['"']
    };
    if is_plain_value(v) {
        lemma_plain_value(v);
    } else {
        lemma_quoted_part(v);
    }
    assert(attr_text(k, v) == head + tail);
    lemma_run_concat(ReadState::Outside, head, tail);
    lemma_quiet_concat(ReadState::Outside, head, tail);
}

proof fn lemma_attrs_run(attrs: Seq<(Seq<char>, Seq<char>)>)
    requires
        forall|j: int| 0 <= j < attrs.len() ==> is_token_key(#[trigger] attrs[j].0),
    ensures
        read_run(ReadState::Outside, attrs_text(attrs)) == ReadState::Outside,
        quiet(ReadState::Outside, attrs_text(attrs)),
    decreases attrs.len(),
{
    if attrs.len() > 0 {
        let init = attrs.drop_last();
        assert forall|j: int| 0 <= j < init.len() implies is_token_key(#[trigger] init[j].0) by {
            assert(init[j] == attrs[j]);
        }
        lemma_attrs_run(init);
        assert(attrs.last() == attrs[attrs.len() - 1]);
        lemma_attr_run(attrs.last().0, attrs.last().1);
        lemma_run_concat(ReadState::Outside, attrs_text(init), attr_text(attrs.last().0, attrs.last().1));
        lemma_quiet_concat(ReadState::Outside, attrs_text(init), attr_text(attrs.last().0, attrs.last().1));
    } else {
        assert(attrs_text(attrs) =~= Seq::<char>::empty());
        assert(Seq::<char>::empty().subrange(0, 0) =~= Seq::<char>::empty());
    }
}

proof fn lemma_link_run(l: (Seq<char>, Seq<(Seq<char>, Seq<char>)>))
    requires
        readable_link(l),
    ensures
        read_run(ReadState::Outside, link_text(l)) == ReadState::Outside,
        quiet(ReadState::Outside, link_text(l)),
{
    lemma_run_one(ReadState::Outside, '<');
    lemma_target_run(l.0);
    lemma_run_one(ReadState::Target, '>');
    lemma_attrs_run(l.1);
    let p1 = seq!['<'] + l.0;
    lemma_run_concat(ReadState::Outside, seq!['<'], l.0);
    lemma_quiet_concat(ReadState::Outside, seq!['<'], l.0);
    let p2 = p1 + seq!['>'];
    lemma_run_concat(ReadState::Outside, p1, seq!['>']);
    lemma_quiet_concat(ReadState::Outside, p1, seq!['>']);
    lemma_run_concat(ReadState::Outside, p2, attrs_text(l.1));
    lemma_quiet_concat(ReadState::Outside, p2, attrs_text(l.1));
    assert(link_text(l) =~= p2 + attrs_text(l.1));
}

proof fn lemma_index_after(p: Seq<char>, rest: Seq<char>)
    requires
        !p.contains('>'),
    ensures
        index_of(p + seq!['>'] + rest, '>') == p.len(),
    decreases p.len(),
{
    if p.len() > 0 {
        assert((p + seq!['>'] + rest).drop_first() =~= p.drop_first() + seq!['>'] + rest);
        assert(!p.drop_first().contains('>')) by {
            if p.drop_first().contains('>') {
                let i = choose|i: int| 0 <= i < p.drop_first().len() && p.drop_first()[i] == '>';
                assert(p[i + 1] == '>');
            }
        }
        assert(p[0] != '>');
        lemma_index_after(p.drop_first(), rest);
    } else {
        assert(p + seq!['>'] + rest =~= seq!['>'] + rest);
    }
}

/// The target of a link's text is its path, where the path holds no `>`.
pub proof fn lemma_link_target(l: (Seq<char>, Seq<(Seq<char>, Seq<char>)>))
    requires
        !l.0.contains('>'),
    ensures
        link_target(link_text(l)) == l.0,
{
    let t = link_text(l);
    assert(t.drop_first() =~= l.0 + seq!['>'] + attrs_text(l.1));
    lemma_index_after(l.0, attrs_text(l.1));
    assert(t[0] == '<');
    assert(t.subrange(1, l.0.len() + 1 as int) =~= l.0);
}

proof fn lemma_links_run(links: Seq<(Seq<char>, Seq<(Seq<char>, Seq<char>)>)>)
    requires
        forall|i: int| 0 <= i < links.len() ==> readable_link(#[trigger] links[i]),
    ensures
        read_run(ReadState::Outside, links_text(links)) == ReadState::Outside,
    decreases links.len(),
{
    if links.len() == 1 {
        lemma_link_run(links[0]);
    } else if links.len() > 1 {
        let init = links.drop_last();
        assert forall|i: int| 0 <= i < init.len() implies readable_link(#[trigger] init[i]) by {
            assert(init[i] == links[i]);
        }
        lemma_links_run(init);
        assert(links.last() == links[links.len() - 1]);
        lemma_link_run(links.last());
        lemma_run_one(ReadState::Outside, ',');
        lemma_run_concat(ReadState::Outside, links_text(init), seq![',']);
        lemma_run_concat(ReadState::Outside, links_text(init) + seq![','], link_text(links.last()));
    }
}

/// Reading the text of links back (splitting at the commas between links, taking each target)
/// gives their paths, in order, where no path holds a `>` and every key is a token.
pub proof fn lemma_links_parse_back(links: Seq<(Seq<char>, Seq<(Seq<char>, Seq<char>)>)>)
    requires
        forall|i: int| 0 <= i < links.len() ==> readable_link(#[trigger] links[i]),
    ensures
        parsed_targets(links_text(links)) == links.map_values(
            |l: (Seq<char>, Seq<(Seq<char>, Seq<char>)>)| l.0,
        ),
    decreases links.len(),
{
    lemma_links_text_empty(links);
    if links.len() == 0 {
        assert(links.map_values(|l: (Seq<char>, Seq<(Seq<char>, Seq<char>)>)| l.0) =~= Seq::<Seq<char>>::empty());
    } else {
        assert(links.last() == links[links.len() - 1]);
        lemma_link_target(links.last());
        lemma_link_run(links.last());
        lemma_quiet_whole(link_text(links.last()));
        if links.len() == 1 {
            assert(links[0] == links.last());
            assert(parsed_targets(links_text(links)) =~= links.map_values(
                |l: (Seq<char>, Seq<(Seq<char>, Seq<char>)>)| l.0,
            ));
        } else {
            let init = links.drop_last();
            assert forall|i: int| 0 <= i < init.len() implies readable_link(#[trigger] init[i]) by {
                assert(init[i] == links[i]);
            }
            lemma_links_parse_back(init);
            lemma_links_text_empty(init);
            lemma_links_run(init);
            lemma_split_links_concat(links_text(init), link_text(links.last()));
            let whole = links_text(links);
            assert(whole == links_text(init) + seq![','] + link_text(links.last()));
            let pieces = split_links(whole);
            assert(pieces == split_links(links_text(init)) + seq![link_text(links.last())]);
            let f = |t: Seq<char>| link_target(t);
            assert(pieces.map_values(f) =~= split_links(links_text(init)).map_values(f).push(
                link_target(link_text(links.last())),
            ));
            assert(split_links(links_text(init)).map_values(f) == parsed_targets(links_text(init)));
            assert(links.map_values(|l: (Seq<char>, Seq<(Seq<char>, Seq<char>)>)| l.0) =~= init.map_values(
                |l: (Seq<char>, Seq<(Seq<char>, Seq<char>)>)| l.0,
            ).push(links.last().0));
            assert(parsed_targets(links_text(links)) =~= links.map_values(
                |l: (Seq<char>, Seq<(Seq<char>, Seq<char>)>)| l.0,
            ));
        }
    }
}

/// Relies on coap_lite's `LinkFormatWrite`: `link` writes `<path>` (after a comma from the
/// second link on); `attr` writes `;key=value`, quoting and escaping the value unless it is
/// ASCII letters and digits only. Writing into a `String` does not fail. `attr` debug-asserts
/// that a key has no `=` and no whitespace, which `requires` leaves out.
#[verifier::external_body]
pub(crate) fn write_link_format(links: &Vec<Link>) -> (r: String)
    requires
        links_well_keyed(links_view(links@)),
    ensures
        r@ == links_text(links_view(links@)),
{
    let mut buffer = String::new();
    let mut write = LinkFormatWrite::new(&mut buffer);
    for link in links.iter() {
        let mut attr = write.link(link.path.as_str());
        for (key, value) in link.attributes.iter() {
            attr = attr.attr(key.as_str(), value.as_str());
        }
        let _ = attr.finish();
    }
    let _ = write.finish();
    buffer
}

} // verus!
