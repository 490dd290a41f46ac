//! Merging of per-server hover replies, diagnostics and code lenses into one
//! ordered, server-attributed result.
//!
//! Each server's content blocks are joined by a visual rule; a server's name
//! labels its part only when more than one server contributed. Diagnostics
//! and lenses are filtered by a line-level intersection with the queried
//! range — deliberately loose, so stale ranges after small edits still
//! surface. Leading tabs of plain-text content are expanded to spaces at the
//! caller's tab width, per line, prefix run only.

use vstd::prelude::*;
use vstd::string::*;
use vstd::arithmetic::mul::lemma_mul_inequality;
use itertools::Itertools;
use crate::types::{CodeLens, Diagnostic, LspRange};

verus! {

/// The concatenation of `parts` with `sep` between consecutive parts.
pub open spec fn join_spec(parts: Seq<Seq<char>>, sep: Seq<char>) -> Seq<char>
    decreases parts.len(),
{
    if parts.len() == 0 {
        Seq::empty()
    } else if parts.len() == 1 {
        parts[0]
    } else {
        parts[0] + sep + join_spec(parts.drop_first(), sep)
    }
}

/// The views of a vector of strings.
pub open spec fn views(v: Seq<String>) -> Seq<Seq<char>> {
    Seq::new(v.len(), |i: int| v[i]@)
}

/// Relies on itertools' `Itertools::join`: the items concatenated with the
/// separator between consecutive items, the empty string for no items.
#[verifier::external_body]
fn join_with(parts: &Vec<String>, sep: &str) -> (r: String)
    ensures
        r@ == join_spec(views(parts@), sep@),
{
    parts.iter().join(sep)
}

/// Index of the first newline at or after `pos`.
pub open spec fn first_nl(s: Seq<char>, pos: int) -> Option<int>
    decreases s.len() - pos,
{
    if pos < 0 || pos >= s.len() {
        None
    } else if s[pos] == '\n' {
        Some(pos)
    } else {
        first_nl(s, pos + 1)
    }
}

pub proof fn lemma_first_nl_bounds(s: Seq<char>, pos: int)
    requires
        0 <= pos <= s.len(),
    ensures
        match first_nl(s, pos) {
            Some(i) => pos <= i < s.len() && s[i] == '\n' && (forall|j: int|
                pos <= j < i ==> s[j] != '\n'),
            None => forall|j: int| pos <= j < s.len() ==> s[j] != '\n',
        },
    decreases s.len() - pos,
{
    if pos < s.len() && s[pos] != '\n' {
        lemma_first_nl_bounds(s, pos + 1);
    }
}

/// The lines of `s` from `pos` on, split at `'\n'`; the terminators are not
/// part of any line.
pub open spec fn lines_from(s: Seq<char>, pos: int) -> Seq<Seq<char>>
    decreases s.len() - pos,
    when 0 <= pos <= s.len()
    via lines_from_dec
{
    match first_nl(s, pos) {
        None => seq![s.skip(pos)],
        Some(i) => seq![s.subrange(pos, i)] + lines_from(s, i + 1),
    }
}

#[via_fn]
proof fn lines_from_dec(s: Seq<char>, pos: int) {
    lemma_first_nl_bounds(s, pos);
}

/// The lines of `s`.
pub open spec fn lines_spec(s: Seq<char>) -> Seq<Seq<char>> {
    lines_from(s, 0)
}

fn find_nl(s: &str, from: usize, n: usize) -> (r: Option<usize>)
    requires
        from <= n,
        n == s@.len(),
    ensures
        match r {
            Some(i) => first_nl(s@, from as int) == Some(i as int) && from <= i < n,
            None => first_nl(s@, from as int) is None,
        },
{
    let mut i = from;
    while i < n
        invariant
            from <= i <= n,
            n == s@.len(),
            first_nl(s@, from as int) == first_nl(s@, i as int),
        decreases n - i,
    {
        if s.get_char(i) == '\n' {
            return Some(i);
        }
        i = i + 1;
    }
    None
}

/// Split content into its lines.
pub fn split_lines(s: &str) -> (r: Vec<String>)
    ensures
        views(r@) == lines_spec(s@),
        forall|i: int| 0 <= i < r@.len() ==> (#[trigger] r@[i])@.len() <= s@.len(),
{
    let n = s.unicode_len();
    let mut r: Vec<String> = Vec::new();
    let mut pos: usize = 0;
    loop
        invariant
            pos <= n,
            n == s@.len(),
            lines_spec(s@) == views(r@) + lines_from(s@, pos as int),
            forall|i: int| 0 <= i < r@.len() ==> (#[trigger] r@[i])@.len() <= s@.len(),
        decreases n - pos,
    {
        match find_nl(s, pos, n) {
            None => {
                let tail = s.substring_char(pos, n);
                r.push(tail.to_owned());
                proof {
                    assert(views(r@) =~= lines_spec(s@));
                }
                return r;
            },
            Some(i) => {
                let line = s.substring_char(pos, i);
                r.push(line.to_owned());
                proof {
                    assert(views(r@) + lines_from(s@, i + 1) =~= lines_spec(s@));
                }
                pos = i + 1;
            },
        }
    }
}

/// How many copies of `c` start the sequence.
pub open spec fn count_leading(s: Seq<char>, c: char) -> nat
    decreases s.len(),
{
    if s.len() == 0 || s[0] != c {
        0
    } else {
        (1 + count_leading(s.drop_first(), c)) as nat
    }
}

proof fn lemma_count_leading_at(s: Seq<char>, c: char, k: int)
    requires
        0 <= k <= s.len(),
        forall|i: int| 0 <= i < k ==> s[i] == c,
        k < s.len() ==> s[k] != c,
    ensures
        count_leading(s, c) == k,
    decreases k,
{
    if k == 0 {
    } else {
        lemma_count_leading_at(s.drop_first(), c, k - 1);
    }
}

/// `n` copies of `c`.
pub open spec fn repeat_char(c: char, n: nat) -> Seq<char> {
    Seq::new(n, |i: int| c)
}

fn count_leading_tabs(line: &str, n: usize) -> (k: usize)
    requires
        n == line@.len(),
    ensures
        k == count_leading(line@, '\t'),
        k <= n,
{
    let mut k: usize = 0;
    while k < n
        invariant
            k <= n,
            n == line@.len(),
            forall|i: int| 0 <= i < k ==> line@[i] == '\t',
        decreases n - k,
    {
        if line.get_char(k) != '\t' {
            proof {
                lemma_count_leading_at(line@, '\t', k as int);
            }
            return k;
        }
        k = k + 1;
    }
    proof {
        lemma_count_leading_at(line@, '\t', k as int);
    }
    k
}

fn push_spaces(out: &mut String, n: usize)
    ensures
        final(out)@ == old(out)@ + repeat_char(' ', n as nat),
{
    let mut i: usize = 0;
    while i < n
        invariant
            i <= n,
            out@ == old(out)@ + repeat_char(' ', i as nat),
        decreases n - i,
    {
        out.append(" ");
        proof {
            reveal_strlit(" ");
            assert(out@ =~= old(out)@ + repeat_char(' ', (i + 1) as nat));
        }
        i = i + 1;
    }
}

/// A line with each of its leading tabs expanded to `ts` spaces; interior
/// tabs are left alone on purpose.
pub open spec fn expand_line_spec(s: Seq<char>, ts: nat) -> Seq<char> {
    repeat_char(' ', ts * count_leading(s, '\t')) + s.skip(count_leading(s, '\t') as int)
}

fn expand_line(line: &str, tabstop: usize) -> (r: String)
    requires
        tabstop * line@.len() <= usize::MAX,
    ensures
        r@ == expand_line_spec(line@, tabstop as nat),
{
    let n = line.unicode_len();
    let k = count_leading_tabs(line, n);
    proof {
        lemma_mul_inequality(k as int, n as int, tabstop as int);
        assert(tabstop * k <= tabstop * n) by (nonlinear_arith)
            requires
                0 <= tabstop,
                k <= n,
        ;
    }
    let mut r = String::new();
    push_spaces(&mut r, tabstop * k);
    let rest = line.substring_char(k, n);
    r.append(rest);
    proof {
        assert(r@ =~= expand_line_spec(line@, tabstop as nat));
    }
    r
}

/// Each line of `s`, expanded at the tab width.
pub open spec fn expanded_lines(s: Seq<char>, ts: nat) -> Seq<Seq<char>> {
    Seq::new(lines_spec(s).len(), |i: int| expand_line_spec(lines_spec(s)[i], ts))
}

/// Content with the leading tabs of every line expanded at the tab width.
pub open spec fn expand_tabs_spec(s: Seq<char>, ts: nat) -> Seq<char> {
    join_spec(expanded_lines(s, ts), seq!['\n'])
}

/// Expand the leading tabs of every line of `content` to `tabstop` spaces
/// each; everything after the first non-tab of a line is untouched.
pub fn expand_tabs(content: &str, tabstop: usize) -> (r: String)
    requires
        tabstop * content@.len() <= usize::MAX,
    ensures
        r@ == expand_tabs_spec(content@, tabstop as nat),
{
    let lines = split_lines(content);
    let mut expanded: Vec<String> = Vec::new();
    let mut i: usize = 0;
    let n = lines.len();
    while i < n
        invariant
            i <= n,
            n == lines@.len(),
            tabstop * content@.len() <= usize::MAX,
            views(lines@) == lines_spec(content@),
            forall|x: int| 0 <= x < n ==> (#[trigger] lines@[x])@.len() <= content@.len(),
            views(expanded@) =~= expanded_lines(content@, tabstop as nat).take(i as int),
        decreases n - i,
    {
        proof {
            assert(lines@[i as int]@.len() <= content@.len());
            assert(tabstop * lines@[i as int]@.len() <= tabstop * content@.len())
                by (nonlinear_arith)
                requires
                    lines@[i as int]@.len() <= content@.len(),
            ;
        }
        let e = expand_line(lines[i].as_str(), tabstop);
        let ghost pre = expanded@;
        let ghost el = expanded_lines(content@, tabstop as nat);
        expanded.push(e);
        proof {
            assert(lines_spec(content@).len() == n);
            assert(el.len() == n);
            assert(views(pre).len() == pre.len());
            assert(el.take(i as int).len() == i);
            assert(pre.len() == i);
            assert(expanded@ == pre.push(e));
            assert(expanded@.len() == i + 1);
            assert(views(lines@)[i as int] == lines@[i as int]@);
            assert(lines_spec(content@)[i as int] == lines@[i as int]@);
            assert(el[i as int] == expand_line_spec(lines_spec(content@)[i as int], tabstop as nat));
            assert forall|x: int| 0 <= x < i + 1 implies views(expanded@)[x] == el.take(i + 1)[x] by {
                assert(views(expanded@)[x] == expanded@[x]@);
                if x < i {
                    assert(expanded@[x] == pre[x]);
                    assert(views(pre)[x] == pre[x]@);
                    assert(views(pre)[x] == el.take(i as int)[x]);
                } else {
                    assert(expanded@[x] == e);
                }
            }
            assert(views(expanded@) =~= el.take(i + 1));
        }
        i = i + 1;
    }
    proof {
        assert(expanded_lines(content@, tabstop as nat).take(n as int) =~= expanded_lines(
            content@,
            tabstop as nat,
        ));
        reveal_strlit("\n");
        assert("\n"@ =~= seq!['\n']);
    }
    join_with(&expanded, "\n")
}


/// Pushing a string extends the views by its view.
proof fn lemma_views_push(pre: Seq<String>, e: String)
    ensures
        views(pre.push(e)) =~= views(pre).push(e@),
{
    assert forall|x: int| 0 <= x < pre.len() + 1 implies views(pre.push(e))[x] == views(pre).push(
        e@,
    )[x] by {
        if x < pre.len() {
            assert(pre.push(e)[x] == pre[x]);
        } else {
            assert(pre.push(e)[x] == e);
        }
    }
}

/// The horizontal rule drawn between content blocks.
pub open spec fn rule() -> Seq<char> {
    seq!['\n', '-', '-', '-', '\n']
}

/// The nonempty sequences among the first `n` of `parts`, kept in order.
pub open spec fn nonempty_upto(parts: Seq<Seq<char>>, n: int) -> Seq<Seq<char>>
    decreases n,
{
    if n <= 0 {
        Seq::empty()
    } else {
        let pre = nonempty_upto(parts, n - 1);
        if parts[n - 1].len() == 0 {
            pre
        } else {
            pre.push(parts[n - 1])
        }
    }
}

pub open spec fn nonempty_of(parts: Seq<Seq<char>>) -> Seq<Seq<char>> {
    nonempty_upto(parts, parts.len() as int)
}

/// One server's hover reply, reduced to its rendered content blocks.
pub struct HoverReply {
    pub blocks: Vec<String>,
    /// Plain text gets its leading tabs expanded; markup is left alone.
    pub plaintext: bool,
}

/// One server's labelled reply, in eligibility-scan order.
pub struct ServerHover {
    pub name: String,
    pub reply: Option<HoverReply>,
}

/// What one reply contributes before labelling: its nonempty blocks joined by
/// the rule, leading tabs expanded when the content is plain text.
pub open spec fn reply_content(h: HoverReply, ts: nat) -> Seq<char> {
    let joined = join_spec(nonempty_of(views(h.blocks@)), rule());
    if h.plaintext {
        expand_tabs_spec(joined, ts)
    } else {
        joined
    }
}

/// A server with no reply contributes nothing.
pub open spec fn content_of(s: ServerHover, ts: nat) -> Seq<char> {
    match s.reply {
        None => Seq::empty(),
        Some(h) => reply_content(h, ts),
    }
}

/// The machine bound tab expansion needs: the expanded content must fit.
pub open spec fn reply_fits(s: ServerHover, ts: nat) -> bool {
    match s.reply {
        None => true,
        Some(h) => h.plaintext ==> ts * join_spec(nonempty_of(views(h.blocks@)), rule()).len()
            <= usize::MAX,
    }
}

fn filter_nonempty(blocks: &Vec<String>) -> (r: Vec<String>)
    ensures
        views(r@) == nonempty_of(views(blocks@)),
{
    let mut r: Vec<String> = Vec::new();
    let mut i: usize = 0;
    let n = blocks.len();
    while i < n
        invariant
            i <= n,
            n == blocks@.len(),
            views(r@) =~= nonempty_upto(views(blocks@), i as int),
        decreases n - i,
    {
        proof {
            assert(views(blocks@)[i as int] == blocks@[i as int]@);
        }
        if !blocks[i].as_str().is_empty() {
            let ghost pre = r@;
            let b = String::from_str(blocks[i].as_str());
            r.push(b);
            proof {
                lemma_views_push(pre, r@.last());
            }
        }
        i = i + 1;
    }
    proof {
        assert(nonempty_upto(views(blocks@), n as int) =~= nonempty_of(views(blocks@)));
    }
    r
}

/// One server's finished contribution: blocks joined, tabs expanded for plain
/// text, empty for a server that returned nothing.
pub fn content_of_reply(s: &ServerHover, tabstop: usize) -> (r: String)
    requires
        reply_fits(*s, tabstop as nat),
    ensures
        r@ == content_of(*s, tabstop as nat),
{
    match &s.reply {
        None => String::new(),
        Some(h) => {
            let kept = filter_nonempty(&h.blocks);
            proof {
                reveal_strlit("\n---\n");
                assert("\n---\n"@ =~= rule());
            }
            let joined = join_with(&kept, "\n---\n");
            if h.plaintext {
                expand_tabs(joined.as_str(), tabstop)
            } else {
                joined
            }
        },
    }
}

/// `[name] `, the attribution put before a part when several contributed.
pub open spec fn label(name: Seq<char>) -> Seq<char> {
    seq!['['] + name + seq![']', ' ']
}

/// The contributions among the first `n` servers, in scan order: the name and
/// content of every server whose content is nonempty.
pub open spec fn contribs_upto(rs: Seq<ServerHover>, ts: nat, n: int) -> Seq<
    (Seq<char>, Seq<char>),
>
    decreases n,
{
    if n <= 0 {
        Seq::empty()
    } else {
        let pre = contribs_upto(rs, ts, n - 1);
        let c = content_of(rs[n - 1], ts);
        if c.len() == 0 {
            pre
        } else {
            pre.push((rs[n - 1].name@, c))
        }
    }
}

pub open spec fn contribs(rs: Seq<ServerHover>, ts: nat) -> Seq<(Seq<char>, Seq<char>)> {
    contribs_upto(rs, ts, rs.len() as int)
}

pub open spec fn contents_only(cs: Seq<(Seq<char>, Seq<char>)>) -> Seq<Seq<char>> {
    Seq::new(cs.len(), |i: int| cs[i].1)
}

pub open spec fn labelled(cs: Seq<(Seq<char>, Seq<char>)>) -> Seq<Seq<char>> {
    Seq::new(cs.len(), |i: int| label(cs[i].0) + cs[i].1)
}

/// The merged hover text: the contributions joined by the rule, each prefixed
/// by its server's name exactly when more than one server contributed.
pub open spec fn merged_hover(rs: Seq<ServerHover>, ts: nat) -> Seq<char> {
    let cs = contribs(rs, ts);
    if cs.len() <= 1 {
        join_spec(contents_only(cs), rule())
    } else {
        join_spec(labelled(cs), rule())
    }
}

/// Merge the per-server hover replies, in the order they stand in `results`
/// — the eligibility-scan order — whatever order the replies arrived in.
pub fn merge_hover_results(results: &Vec<ServerHover>, tabstop: usize) -> (r: String)
    requires
        forall|i: int| 0 <= i < results@.len() ==> reply_fits(#[trigger] results@[i], tabstop as nat),
    ensures
        r@ == merged_hover(results@, tabstop as nat),
{
    let ghost ts = tabstop as nat;
    let mut names: Vec<String> = Vec::new();
    let mut contents: Vec<String> = Vec::new();
    let mut i: usize = 0;
    let n = results.len();
    while i < n
        invariant
            i <= n,
            n == results@.len(),
            ts == tabstop as nat,
            forall|x: int| 0 <= x < n ==> reply_fits(#[trigger] results@[x], ts),
            names@.len() == contribs_upto(results@, ts, i as int).len(),
            views(names@) =~= Seq::new(
                contribs_upto(results@, ts, i as int).len(),
                |x: int| contribs_upto(results@, ts, i as int)[x].0,
            ),
            views(contents@) =~= contents_only(contribs_upto(results@, ts, i as int)),
        decreases n - i,
    {
        let c = content_of_reply(&results[i], tabstop);
        if !c.as_str().is_empty() {
            let ghost pn = names@;
            let ghost pc = contents@;
            let name = String::from_str(results[i].name.as_str());
            names.push(name);
            contents.push(c);
            proof {
                lemma_views_push(pn, names@.last());
                lemma_views_push(pc, contents@.last());
                assert(views(names@) =~= Seq::new(
                    contribs_upto(results@, ts, i + 1).len(),
                    |x: int| contribs_upto(results@, ts, i + 1)[x].0,
                ));
                assert(views(contents@) =~= contents_only(contribs_upto(results@, ts, i + 1)));
            }
        }
        i = i + 1;
    }
    let ghost cs = contribs(results@, ts);
    proof {
        reveal_strlit("\n---\n");
        assert("\n---\n"@ =~= rule());
    }
    if contents.len() <= 1 {
        proof {
            assert(views(contents@) =~= contents_only(cs));
        }
        join_with(&contents, "\n---\n")
    } else {
        let mut lab: Vec<String> = Vec::new();
        let mut x: usize = 0;
        let m = contents.len();
        while x < m
            invariant
                x <= m,
                m == contents@.len(),
                m == names@.len(),
                m == cs.len(),
                views(names@) =~= Seq::new(cs.len(), |y: int| cs[y].0),
                views(contents@) =~= contents_only(cs),
                views(lab@) =~= labelled(cs).take(x as int),
            decreases m - x,
        {
            let mut t = String::from_str("[");
            t.append(names[x].as_str());
            t.append("] ");
            t.append(contents[x].as_str());
            proof {
                reveal_strlit("[");
                reveal_strlit("] ");
                assert(views(names@)[x as int] == names@[x as int]@);
                assert(views(contents@)[x as int] == contents@[x as int]@);
                assert(names@[x as int]@ == cs[x as int].0);
                assert(contents@[x as int]@ == cs[x as int].1);
                assert(t@ =~= label(cs[x as int].0) + cs[x as int].1);
                assert(labelled(cs)[x as int] == label(cs[x as int].0) + cs[x as int].1);
            }
            let ghost pl = lab@;
            lab.push(t);
            proof {
                lemma_views_push(pl, lab@.last());
                assert(views(lab@) =~= labelled(cs).take(x + 1));
            }
            x = x + 1;
        }
        proof {
            assert(labelled(cs).take(m as int) =~= labelled(cs));
        }
        join_with(&lab, "\n---\n")
    }
}

/// Law: when exactly one of two servers contributes content, the merged
/// output is exactly that content — no separator and no name label appears.
pub proof fn lemma_single_contribution(rs: Seq<ServerHover>, ts: nat, i: int)
    requires
        rs.len() == 2,
        0 <= i < 2,
        content_of(rs[i], ts).len() > 0,
        content_of(rs[1 - i], ts).len() == 0,
    ensures
        merged_hover(rs, ts) == content_of(rs[i], ts),
{
    let cs = contribs(rs, ts);
    assert(contribs_upto(rs, ts, 0) =~= Seq::<(Seq<char>, Seq<char>)>::empty());
    if i == 0 {
        assert(contribs_upto(rs, ts, 1) =~= seq![(rs[0].name@, content_of(rs[0], ts))]);
    } else {
        assert(contribs_upto(rs, ts, 1) =~= Seq::<(Seq<char>, Seq<char>)>::empty());
    }
    assert(cs =~= seq![(rs[i].name@, content_of(rs[i], ts))]);
    assert(contents_only(cs) =~= seq![content_of(rs[i], ts)]);
    assert(join_spec(contents_only(cs), rule()) == content_of(rs[i], ts));
}

/// Whether two protocol ranges touch a common line — the deliberately loose,
/// line-level test used to associate stored entries with a hover query.
pub open spec fn touch_same_line(a: LspRange, b: LspRange) -> bool {
    a.start.line <= b.end.line && b.start.line <= a.end.line
}

pub fn ranges_touch_same_line(a: &LspRange, b: &LspRange) -> (r: bool)
    ensures
        r == touch_same_line(*a, *b),
{
    a.start.line <= b.end.line && b.start.line <= a.end.line
}

/// One stored diagnostic with the server that reported it.
pub struct DiagnosticEntry {
    pub server_id: u64,
    pub diagnostic: Diagnostic,
}

/// One stored code lens with the server that reported it.
pub struct CodeLensEntry {
    pub server_id: u64,
    pub lens: CodeLens,
}

/// The queried range translated for the given server, if that server was
/// asked at all.
pub open spec fn range_for(q: Seq<(u64, LspRange)>, sid: u64) -> Option<LspRange>
    decreases q.len(),
{
    if q.len() == 0 {
        None
    } else if q[0].0 == sid {
        Some(q[0].1)
    } else {
        range_for(q.drop_first(), sid)
    }
}

fn lookup_range(q: &Vec<(u64, LspRange)>, sid: u64) -> (r: Option<LspRange>)
    ensures
        r == range_for(q@, sid),
{
    let mut i: usize = 0;
    let n = q.len();
    proof {
        assert(q@.skip(0) =~= q@);
    }
    while i < n
        invariant
            i <= n,
            n == q@.len(),
            range_for(q@, sid) == range_for(q@.skip(i as int), sid),
        decreases n - i,
    {
        proof {
            assert(q@.skip(i as int)[0] == q@[i as int]);
            assert(q@.skip(i as int).drop_first() =~= q@.skip(i + 1));
        }
        if q[i].0 == sid {
            return Some(q[i].1);
        }
        i = i + 1;
    }
    proof {
        assert(q@.skip(n as int) =~= Seq::<(u64, LspRange)>::empty());
    }
    None
}

/// Whether a diagnostic belongs in the hover output: its server has a queried
/// range, the diagnostic touches the same line, and the message is nonempty.
pub open spec fn diag_selected(d: DiagnosticEntry, q: Seq<(u64, LspRange)>) -> bool {
    match range_for(q, d.server_id) {
        None => false,
        Some(r) => touch_same_line(d.diagnostic.range, r) && d.diagnostic.message@.len() > 0,
    }
}

/// Indices of the selected diagnostics among the first `n`, in order.
pub open spec fn diags_selected_upto(
    ds: Seq<DiagnosticEntry>,
    q: Seq<(u64, LspRange)>,
    n: int,
) -> Seq<usize>
    decreases n,
{
    if n <= 0 {
        Seq::empty()
    } else {
        let pre = diags_selected_upto(ds, q, n - 1);
        if diag_selected(ds[n - 1], q) {
            pre.push((n - 1) as usize)
        } else {
            pre
        }
    }
}

/// Select the diagnostics that belong in the hover output, in storage order.
pub fn select_diagnostics(ds: &Vec<DiagnosticEntry>, q: &Vec<(u64, LspRange)>) -> (r: Vec<usize>)
    ensures
        r@ == diags_selected_upto(ds@, q@, ds@.len() as int),
{
    let mut r: Vec<usize> = Vec::new();
    let mut i: usize = 0;
    let n = ds.len();
    while i < n
        invariant
            i <= n,
            n == ds@.len(),
            r@ == diags_selected_upto(ds@, q@, i as int),
        decreases n - i,
    {
        let sel = match lookup_range(q, ds[i].server_id) {
            None => false,
            Some(range) => ranges_touch_same_line(&ds[i].diagnostic.range, &range)
                && !ds[i].diagnostic.message.as_str().is_empty(),
        };
        if sel {
            r.push(i);
        }
        i = i + 1;
    }
    r
}

/// Whether a code lens belongs in the hover output: its server has a queried
/// range and the lens touches the same line.
pub open spec fn lens_selected(l: CodeLensEntry, q: Seq<(u64, LspRange)>) -> bool {
    match range_for(q, l.server_id) {
        None => false,
        Some(r) => touch_same_line(l.lens.range, r),
    }
}

/// Indices of the selected code lenses among the first `n`, in order.
pub open spec fn lenses_selected_upto(
    ls: Seq<CodeLensEntry>,
    q: Seq<(u64, LspRange)>,
    n: int,
) -> Seq<usize>
    decreases n,
{
    if n <= 0 {
        Seq::empty()
    } else {
        let pre = lenses_selected_upto(ls, q, n - 1);
        if lens_selected(ls[n - 1], q) {
            pre.push((n - 1) as usize)
        } else {
            pre
        }
    }
}

/// Select the code lenses that belong in the hover output, in storage order.
pub fn select_code_lenses(ls: &Vec<CodeLensEntry>, q: &Vec<(u64, LspRange)>) -> (r: Vec<usize>)
    ensures
        r@ == lenses_selected_upto(ls@, q@, ls@.len() as int),
{
    let mut r: Vec<usize> = Vec::new();
    let mut i: usize = 0;
    let n = ls.len();
    while i < n
        invariant
            i <= n,
            n == ls@.len(),
            r@ == lenses_selected_upto(ls@, q@, i as int),
        decreases n - i,
    {
        let sel = match lookup_range(q, ls[i].server_id) {
            None => false,
            Some(range) => ranges_touch_same_line(&ls[i].lens.range, &range),
        };
        if sel {
            r.push(i);
        }
        i = i + 1;
    }
    r
}

proof fn lemma_diags_selected_contains(
    ds: Seq<DiagnosticEntry>,
    q: Seq<(u64, LspRange)>,
    n: int,
    i: int,
)
    requires
        0 <= i < n <= ds.len(),
        n <= usize::MAX,
    ensures
        diags_selected_upto(ds, q, n).contains(i as usize) <==> diag_selected(ds[i], q),
    decreases n,
{
    let s = diags_selected_upto(ds, q, n);
    let pre = diags_selected_upto(ds, q, n - 1);
    if i == n - 1 {
        lemma_selected_bounds(ds, q, n - 1);
        if diag_selected(ds[i], q) {
            assert(s.last() == i as usize);
            assert(s.contains(i as usize));
        } else {
            if s.contains(i as usize) {
                let x = choose|x: int| 0 <= x < s.len() && s[x] == i as usize;
                assert(pre[x] == i as usize);
            }
        }
    } else {
        lemma_diags_selected_contains(ds, q, n - 1, i);
        if diag_selected(ds[i], q) {
            let x = choose|x: int| 0 <= x < pre.len() && pre[x] == i as usize;
            if diag_selected(ds[n - 1], q) {
                assert(s[x] == i as usize);
            }
            assert(s.contains(i as usize));
        } else {
            if s.contains(i as usize) {
                let x = choose|x: int| 0 <= x < s.len() && s[x] == i as usize;
                if diag_selected(ds[n - 1], q) && x == s.len() - 1 {
                    assert(false);
                } else {
                    assert(pre[x] == i as usize);
                    assert(pre.contains(i as usize));
                }
            }
        }
    }
}

/// Every selected index is below `n`.
proof fn lemma_selected_bounds(ds: Seq<DiagnosticEntry>, q: Seq<(u64, LspRange)>, n: int)
    requires
        0 <= n <= ds.len(),
        n <= usize::MAX,
    ensures
        forall|x: int|
            0 <= x < diags_selected_upto(ds, q, n).len() ==> (#[trigger] diags_selected_upto(
                ds,
                q,
                n,
            )[x]) < n,
    decreases n,
{
    if n > 0 {
        lemma_selected_bounds(ds, q, n - 1);
        let pre = diags_selected_upto(ds, q, n - 1);
        let s = diags_selected_upto(ds, q, n);
        assert forall|x: int| 0 <= x < s.len() implies #[trigger] s[x] < n by {
            if diag_selected(ds[n - 1], q) {
                if x < pre.len() {
                    assert(s[x] == pre[x]);
                } else {
                    assert(s[x] == (n - 1) as usize);
                }
            } else {
                assert(s[x] == pre[x]);
            }
        }
    }
}

/// Law: a diagnostic whose range lies on lines the server's queried range
/// does not touch never appears among the selected diagnostics; one that
/// touches the queried range's line, with a non-empty message, always does.
pub proof fn lemma_diagnostic_line_filter(
    ds: Seq<DiagnosticEntry>,
    q: Seq<(u64, LspRange)>,
    i: int,
)
    requires
        0 <= i < ds.len(),
        ds.len() <= usize::MAX,
        range_for(q, ds[i].server_id) is Some,
    ensures
        !touch_same_line(ds[i].diagnostic.range, range_for(q, ds[i].server_id).unwrap())
            ==> !diags_selected_upto(ds, q, ds.len() as int).contains(i as usize),
        touch_same_line(ds[i].diagnostic.range, range_for(q, ds[i].server_id).unwrap())
            && ds[i].diagnostic.message@.len() > 0 ==> diags_selected_upto(
            ds,
            q,
            ds.len() as int,
        ).contains(i as usize),
{
    lemma_diags_selected_contains(ds, q, ds.len() as int, i);
}

/// The heading diagnostics stand under on a persistent display surface.
pub open spec fn diag_heading() -> Seq<char> {
    seq![
        '\n',
        '\n',
        '#',
        '#',
        ' ',
        'D',
        'i',
        'a',
        'g',
        'n',
        'o',
        's',
        't',
        'i',
        'c',
        's',
        '\n',
    ]
}

/// The text shown on a persistent hover surface: the merged content, the
/// diagnostics under their own heading when there are any, and nothing at all
/// when both are empty — the output is suppressed rather than blank.
pub fn hover_buffer_text(info: String, diagnostics: String) -> (r: Option<String>)
    ensures
        (info@.len() == 0 && diagnostics@.len() == 0) <==> r is None,
        r is Some ==> r.unwrap()@ == (if diagnostics@.len() == 0 {
            info@
        } else {
            info@ + diag_heading() + diagnostics@
        }),
{
    if info.as_str().is_empty() && diagnostics.as_str().is_empty() {
        return None;
    }
    if diagnostics.as_str().is_empty() {
        Some(info)
    } else {
        let mut t = info;
        t.append("\n\n## Diagnostics\n");
        t.append(diagnostics.as_str());
        proof {
            reveal_strlit("\n\n## Diagnostics\n");
            assert("\n\n## Diagnostics\n"@ =~= diag_heading());
        }
        Some(t)
    }
}

/// The parts of a transient hover display, or nothing at all: the whole
/// output is suppressed exactly when content, diagnostics and lenses are all
/// empty, so an empty info box is never shown.
pub fn hover_info_parts(info: String, diagnostics: String, lenses: String) -> (r: Option<
    (String, String, String),
>)
    ensures
        (info@.len() == 0 && diagnostics@.len() == 0 && lenses@.len() == 0) <==> r is None,
        r matches Some(p) ==> p.0@ == info@ && p.1@ == diagnostics@ && p.2@ == lenses@,
{
    if info.as_str().is_empty() && diagnostics.as_str().is_empty() && lenses.as_str().is_empty() {
        None
    } else {
        Some((info, diagnostics, lenses))
    }
}

/// The message with its line breaks indented to the level of a bullet point.
pub open spec fn indent_spec(s: Seq<char>) -> Seq<char> {
    join_spec(lines_spec(s), seq!['\n', ' ', ' '])
}

pub fn indent_message(s: &str) -> (r: String)
    ensures
        r@ == indent_spec(s@),
{
    let ls = split_lines(s);
    proof {
        reveal_strlit("\n  ");
        assert("\n  "@ =~= seq!['\n', ' ', ' ']);
    }
    join_with(&ls, "\n  ")
}

/// One bullet line: the enumerator, the server's name in brackets when more
/// than one server replied, then the indented message.
pub open spec fn bullet_spec(name: Seq<char>, msg: Seq<char>, many: bool, markdown: bool) -> Seq<
    char,
> {
    (if markdown {
        seq!['*', ' ']
    } else {
        seq!['\u{2022}', ' ']
    }) + (if many {
        label(name)
    } else {
        Seq::<char>::empty()
    }) + indent_spec(msg)
}

pub fn format_bullet(name: &str, message: &str, many: bool, markdown: bool) -> (r: String)
    ensures
        r@ == bullet_spec(name@, message@, many, markdown),
{
    let mut t = if markdown {
        String::from_str("* ")
    } else {
        String::from_str("\u{2022} ")
    };
    proof {
        reveal_strlit("* ");
        reveal_strlit("\u{2022} ");
        reveal_strlit("[");
        reveal_strlit("] ");
    }
    if many {
        t.append("[");
        t.append(name);
        t.append("] ");
    }
    let ind = indent_message(message);
    t.append(ind.as_str());
    proof {
        assert(t@ =~= bullet_spec(name@, message@, many, markdown));
    }
    t
}

} // verus!
