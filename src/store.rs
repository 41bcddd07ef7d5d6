//! The store text: a header line, then one event line each. Loading decodes
//! it; deleting rewrites it without the lines of the chosen events; adding
//! appends one line.

use crate::date::{iso_text, lemma_iso_text_digits, Date};
use crate::event::{
    decode, decoded, encode, encoded, lemma_decode_encode, DecodeError, Event, EventView,
};
use crate::filter::{contains_text, select, selected, texts, views, Filter};
use crate::text::{split_on, split_text};
use vstd::prelude::*;

verus! {

/// The lines of a text, as `str::lines` gives them for `\n` endings: a final
/// line break ends the last line and starts no new one.
pub open spec fn file_lines(text: Seq<char>) -> Seq<Seq<char>> {
    let pieces = split_on(text, '\n');
    if pieces.last().len() == 0 {
        pieces.drop_last()
    } else {
        pieces
    }
}

/// The lines after the header.
pub open spec fn data_lines(text: Seq<char>) -> Seq<Seq<char>> {
    let ls = file_lines(text);
    if ls.len() == 0 {
        seq![]
    } else {
        ls.drop_first()
    }
}

/// The events that the lines give, in order.
pub open spec fn loaded(lines: Seq<Seq<char>>) -> Seq<EventView>
    decreases lines.len(),
{
    if lines.len() == 0 {
        seq![]
    } else {
        let rest = loaded(lines.drop_last());
        match decoded(lines.last()) {
            Ok(e) => rest.push(e),
            Err(_) => rest,
        }
    }
}

/// The non-empty lines that give no event, in order.
pub open spec fn skipped(lines: Seq<Seq<char>>) -> Seq<Seq<char>>
    decreases lines.len(),
{
    if lines.len() == 0 {
        seq![]
    } else {
        let rest = skipped(lines.drop_last());
        if lines.last().len() > 0 && decoded(lines.last()) is Err {
            rest.push(lines.last())
        } else {
            rest
        }
    }
}

/// The lines that are not in `doomed`, in order.
pub open spec fn kept(lines: Seq<Seq<char>>, doomed: Seq<Seq<char>>) -> Seq<Seq<char>>
    decreases lines.len(),
{
    if lines.len() == 0 {
        seq![]
    } else {
        let rest = kept(lines.drop_last(), doomed);
        if doomed.contains(lines.last()) {
            rest
        } else {
            rest.push(lines.last())
        }
    }
}

/// Each line followed by a line break.
pub open spec fn unlines(lines: Seq<Seq<char>>) -> Seq<char>
    decreases lines.len(),
{
    if lines.len() == 0 {
        seq![]
    } else {
        unlines(lines.drop_last()) + lines.last() + seq!['\n']
    }
}

/// The store text without the data lines in `doomed`; the header stays.
pub open spec fn rewritten(text: Seq<char>, doomed: Seq<Seq<char>>) -> Seq<char> {
    let ls = file_lines(text);
    if ls.len() == 0 {
        seq![]
    } else {
        unlines(seq![ls[0]] + kept(ls.drop_first(), doomed))
    }
}

/// The lines of the given events.
pub open spec fn encodings(es: Seq<EventView>) -> Seq<Seq<char>> {
    es.map_values(|e: EventView| encoded(e))
}

/// What loading a store text gives.
pub struct LoadReport {
    /// The events, in file order.
    pub events: Vec<Event>,
    /// The non-empty data lines that could not be read, in file order.
    pub skipped: Vec<String>,
}

/// The lines of a text, without the empty piece after a final line break.
fn lines_of(text: &str) -> (r: Vec<String>)
    ensures
        texts(r@) == file_lines(text@),
{
    let mut pieces = split_text(text, '\n');
    proof {
        crate::text::lemma_split_nonempty(text@, '\n');
    }
    let n = pieces.len();
    if pieces[n - 1].as_str().unicode_len() == 0 {
        let ghost all = texts(pieces@);
        pieces.pop();
        assert(texts(pieces@) =~= all.drop_last());
    }
    pieces
}

/// Reads a store text: the first line is a header; each later non-empty line
/// is an event or is reported as skipped.
pub fn load_text(text: &str) -> (r: LoadReport)
    ensures
        views(r.events@) == loaded(data_lines(text@)),
        texts(r.skipped@) == skipped(data_lines(text@)),
        forall|i: int| 0 <= i < r.events@.len() ==> (#[trigger] r.events@[i])@.wf(),
{
    let lines = lines_of(text);
    let ghost ls = texts(lines@);
    let ghost data = data_lines(text@);
    let mut events: Vec<Event> = Vec::new();
    let mut skipped_lines: Vec<String> = Vec::new();
    if lines.len() == 0 {
        return LoadReport { events, skipped: skipped_lines };
    }
    let mut i: usize = 1;
    assert(data.subrange(0, 0) =~= Seq::<Seq<char>>::empty());
    assert(views(events@) =~= Seq::<EventView>::empty());
    assert(texts(skipped_lines@) =~= Seq::<Seq<char>>::empty());
    while i < lines.len()
        invariant
            1 <= i <= lines@.len(),
            ls == texts(lines@),
            ls == file_lines(text@),
            data == ls.drop_first(),
            views(events@) == loaded(data.subrange(0, i - 1)),
            texts(skipped_lines@) == skipped(data.subrange(0, i - 1)),
            forall|k: int| 0 <= k < events@.len() ==> (#[trigger] events@[k])@.wf(),
        decreases lines@.len() - i,
    {
        let ghost pre = data.subrange(0, i - 1);
        let ghost next = data.subrange(0, i as int);
        assert(next.drop_last() == pre);
        assert(next.last() == lines@[i as int]@);
        let ghost ev0 = views(events@);
        let ghost sk0 = texts(skipped_lines@);
        match decode(lines[i].as_str()) {
            Ok(e) => {
                events.push(e);
                assert(views(events@) =~= ev0.push(e@));
            },
            Err(_) => {
                if lines[i].as_str().unicode_len() > 0 {
                    skipped_lines.push(lines[i].clone());
                    assert(texts(skipped_lines@) =~= sk0.push(lines@[i as int]@));
                }
            },
        }
        i = i + 1;
    }
    assert(data.subrange(0, data.len() as int) == data);
    LoadReport { events, skipped: skipped_lines }
}

/// The store text without the data lines that equal one of `doomed`. The
/// header and every other line stay as they were, each ended by a line break.
pub fn remove_lines(text: &str, doomed: &Vec<String>) -> (r: String)
    ensures
        r@ == rewritten(text@, texts(doomed@)),
{
    let lines = lines_of(text);
    let ghost ls = texts(lines@);
    let ghost dm = texts(doomed@);
    let mut out = String::new();
    if lines.len() == 0 {
        return out;
    }
    proof {
        reveal_strlit("\n");
    }
    out.append(lines[0].as_str());
    out.append("\n");
    let ghost head = seq![ls[0]];
    assert(head.drop_last() =~= Seq::<Seq<char>>::empty());
    assert("\n"@ =~= seq!['\n']);
    assert(unlines(head) == unlines(head.drop_last()) + ls[0] + seq!['\n']);
    assert(unlines(Seq::<Seq<char>>::empty()) == Seq::<char>::empty());
    assert(out@ =~= unlines(head));
    let mut i: usize = 1;
    assert(ls.drop_first().subrange(0, 0) =~= Seq::<Seq<char>>::empty());
    assert(head + kept(Seq::<Seq<char>>::empty(), dm) =~= head);
    while i < lines.len()
        invariant
            1 <= i <= lines@.len(),
            ls == texts(lines@),
            ls == file_lines(text@),
            dm == texts(doomed@),
            head == seq![ls[0]],
            out@ == unlines(head + kept(ls.drop_first().subrange(0, i - 1), dm)),
        decreases lines@.len() - i,
    {
        let ghost pre = ls.drop_first().subrange(0, i - 1);
        let ghost next = ls.drop_first().subrange(0, i as int);
        assert(next.drop_last() == pre);
        assert(next.last() == lines@[i as int]@);
        if !contains_text(doomed, &lines[i]) {
            let ghost before = out@;
            out.append(lines[i].as_str());
            out.append("\n");
            let ghost all = head + kept(next, dm);
            assert(all =~= (head + kept(pre, dm)).push(lines@[i as int]@));
            assert(all.drop_last() == head + kept(pre, dm));
            proof {
                reveal_strlit("\n");
            }
            assert("\n"@ =~= seq!['\n']);
            assert(all.last() == lines@[i as int]@);
            assert(unlines(all) == unlines(all.drop_last()) + all.last() + seq!['\n']);
            assert(out@ =~= unlines(all));
        }
        i = i + 1;
    }
    assert(ls.drop_first().subrange(0, ls.len() - 1) == ls.drop_first());
    out
}

/// The line appended to the store for a new event, line break included.
pub fn event_line(e: &Event) -> (r: String)
    requires
        e@.wf(),
    ensures
        r@ == encoded(e@) + seq!['\n'],
{
    let mut s = encode(e);
    proof {
        reveal_strlit("\n");
    }
    s.append("\n");
    s
}

/// What a delete gives: the events it takes out, in file order, and the
/// store text without their lines. A preview shows `removed` and writes nothing.
pub struct DeleteOutcome {
    pub removed: Vec<Event>,
    pub text: String,
}

/// Chooses the events of a store text that `f` takes and rewrites the text
/// without their lines. A preview and a real delete both come from here, so
/// what the preview shows is what the delete takes out.
pub fn delete_matching(text: &str, f: &Filter, today: &Date) -> (r: DeleteOutcome)
    ensures
        views(r.removed@) == selected(loaded(data_lines(text@)), f, *today),
        r.text@ == rewritten(text@, encodings(views(r.removed@))),
{
    let report = load_text(text);
    let removed = select(&report.events, f, today);
    proof {
        lemma_selected_members(views(report.events@), f, *today);
    }
    let mut doomed: Vec<String> = Vec::new();
    let mut i: usize = 0;
    assert(texts(doomed@) =~= encodings(views(removed@)).subrange(0, 0));
    while i < removed.len()
        invariant
            i <= removed@.len(),
            views(removed@) == selected(views(report.events@), f, *today),
            forall|k: int| 0 <= k < report.events@.len() ==> (#[trigger] report.events@[k])@.wf(),
            forall|j: int| 0 <= j < views(removed@).len() ==> views(report.events@).contains(
                #[trigger] views(removed@)[j],
            ),
            texts(doomed@) == encodings(views(removed@)).subrange(0, i as int),
        decreases removed@.len() - i,
    {
        assert(views(removed@)[i as int] == removed@[i as int]@);
        proof {
            let k = choose|k: int|
                0 <= k < views(report.events@).len() && views(report.events@)[k]
                    == removed@[i as int]@;
            assert(views(report.events@)[k] == report.events@[k]@);
        }
        let line = encode(&removed[i]);
        let ghost prev = texts(doomed@);
        doomed.push(line);
        assert(texts(doomed@) =~= prev.push(encoded(removed@[i as int]@)));
        assert(encodings(views(removed@)).subrange(0, i + 1) =~= encodings(views(removed@)).subrange(
            0,
            i as int,
        ).push(encoded(removed@[i as int]@)));
        i = i + 1;
    }
    assert(encodings(views(removed@)).subrange(0, removed@.len() as int) =~= encodings(
        views(removed@),
    ));
    let new_text = remove_lines(text, &doomed);
    DeleteOutcome { removed, text: new_text }
}

/// The events that a filter does not take, in their order.
pub open spec fn rejected(es: Seq<EventView>, f: &Filter, today: Date) -> Seq<EventView>
    decreases es.len(),
{
    if es.len() == 0 {
        seq![]
    } else {
        let rest = rejected(es.drop_last(), f, today);
        if f.holds(es.last(), today) {
            rest
        } else {
            rest.push(es.last())
        }
    }
}

/// Every line is the line of an event that reads back unchanged.
pub open spec fn canonical_lines(lines: Seq<Seq<char>>) -> bool {
    forall|i: int|
        0 <= i < lines.len() ==> (decoded(#[trigger] lines[i]) matches Ok(e) && e.storable()
            && encoded(e) == lines[i])
}

pub open spec fn line_decodes(l: Seq<char>) -> bool {
    decoded(l) is Ok
}

pub open spec fn line_is_skipped(l: Seq<char>) -> bool {
    l.len() > 0 && decoded(l) is Err
}

pub open spec fn line_not_blank(l: Seq<char>) -> bool {
    l.len() > 0
}

/// Loading gives one event for each line that reads as one and reports each
/// other non-empty line: N good lines and M bad ones give N events and M
/// reports.
pub proof fn lemma_load_counts(lines: Seq<Seq<char>>)
    ensures
        loaded(lines).len() == lines.filter(|l: Seq<char>| line_decodes(l)).len(),
        skipped(lines).len() == lines.filter(|l: Seq<char>| line_is_skipped(l)).len(),
        loaded(lines).len() + skipped(lines).len() == lines.filter(
            |l: Seq<char>| line_not_blank(l),
        ).len(),
    decreases lines.len(),
{
    reveal(Seq::filter);
    if lines.len() > 0 {
        lemma_load_counts(lines.drop_last());
        let l = lines.last();
        if l.len() == 0 {
            assert(split_on(l, ',') == seq![Seq::<char>::empty()]);
        }
    }
}

proof fn lemma_selected_members(es: Seq<EventView>, f: &Filter, today: Date)
    ensures
        forall|j: int|
            0 <= j < selected(es, f, today).len() ==> es.contains(
                #[trigger] selected(es, f, today)[j],
            ) && f.holds(selected(es, f, today)[j], today),
        forall|x: EventView| es.contains(x) && f.holds(x, today) ==> #[trigger] selected(
            es,
            f,
            today,
        ).contains(x),
    decreases es.len(),
{
    if es.len() > 0 {
        let init = es.drop_last();
        lemma_selected_members(init, f, today);
        let s = selected(es, f, today);
        let s0 = selected(init, f, today);
        assert forall|j: int| 0 <= j < s.len() implies es.contains(#[trigger] s[j]) && f.holds(
            s[j],
            today,
        ) by {
            if j < s0.len() {
                assert(s[j] == s0[j]);
                let k = choose|k: int| 0 <= k < init.len() && init[k] == s0[j];
                assert(es[k] == init[k]);
            } else {
                assert(es[es.len() - 1] == s[j]);
            }
        }
        assert forall|x: EventView| es.contains(x) && f.holds(x, today) implies #[trigger] s.contains(
            x,
        ) by {
            let k = choose|k: int| 0 <= k < es.len() && es[k] == x;
            if k < es.len() - 1 {
                assert(init[k] == x);
                assert(init.contains(x));
                assert(s0.contains(x));
                let j = choose|j: int| 0 <= j < s0.len() && s0[j] == x;
                if f.holds(es.last(), today) {
                    assert(s[j] == s0[j]);
                }
                assert(s[j] == x);
            } else {
                assert(s[s.len() - 1] == x);
            }
        }
    }
}

proof fn lemma_canonical_loaded(lines: Seq<Seq<char>>)
    requires
        canonical_lines(lines),
    ensures
        loaded(lines).len() == lines.len(),
        forall|i: int|
            0 <= i < lines.len() ==> decoded(lines[i]) == Ok::<EventView, DecodeError>(
                #[trigger] loaded(lines)[i],
            ),
    decreases lines.len(),
{
    if lines.len() > 0 {
        let init = lines.drop_last();
        assert forall|i: int| 0 <= i < init.len() implies (decoded(#[trigger] init[i]) matches Ok(
            e,
        ) && e.storable() && encoded(e) == init[i]) by {
            assert(init[i] == lines[i]);
        }
        lemma_canonical_loaded(init);
        assert(decoded(lines[lines.len() - 1]) is Ok);
        assert forall|i: int| 0 <= i < lines.len() implies decoded(lines[i]) == Ok::<
            EventView,
            DecodeError,
        >(#[trigger] loaded(lines)[i]) by {
            if i < init.len() {
                assert(init[i] == lines[i]);
            }
        }
    }
}

/// Keeping the lines outside `doomed`, where `doomed` holds exactly the lines
/// of the events that `f` takes, keeps exactly the events that `f` rejects.
proof fn lemma_kept_rejected(lines: Seq<Seq<char>>, doomed: Seq<Seq<char>>, f: &Filter, today: Date)
    requires
        canonical_lines(lines),
        forall|i: int|
            0 <= i < lines.len() ==> (doomed.contains(#[trigger] lines[i]) <==> f.holds(
                decoded(lines[i])->Ok_0,
                today,
            )),
    ensures
        canonical_lines(kept(lines, doomed)),
        loaded(kept(lines, doomed)) == rejected(loaded(lines), f, today),
    decreases lines.len(),
{
    if lines.len() > 0 {
        let init = lines.drop_last();
        let l = lines.last();
        assert forall|i: int| 0 <= i < init.len() implies (decoded(#[trigger] init[i]) matches Ok(
            e,
        ) && e.storable() && encoded(e) == init[i]) by {
            assert(init[i] == lines[i]);
        }
        assert forall|i: int| 0 <= i < init.len() implies (doomed.contains(#[trigger] init[i])
            <==> f.holds(decoded(init[i])->Ok_0, today)) by {
            assert(init[i] == lines[i]);
        }
        lemma_kept_rejected(init, doomed, f, today);
        assert(decoded(lines[lines.len() - 1]) is Ok);
        let e = decoded(l)->Ok_0;
        assert(doomed.contains(lines[lines.len() - 1]) <==> f.holds(e, today));
        assert(loaded(lines) == loaded(init).push(e));
        assert(loaded(lines).drop_last() == loaded(init));
        let k0 = kept(init, doomed);
        if !doomed.contains(l) {
            let k = k0.push(l);
            assert forall|i: int| 0 <= i < k.len() implies (decoded(#[trigger] k[i]) matches Ok(
                e,
            ) && e.storable() && encoded(e) == k[i]) by {
                if i < k0.len() {
                    assert(k[i] == k0[i]);
                }
            }
            assert(k.drop_last() == k0);
            assert(k.last() == l);
            assert(loaded(k) == loaded(k0).push(e));
        }
    }
}

/// Lines without a line break, each followed by one, split back into the same lines.
proof fn lemma_unlines_lines(ls: Seq<Seq<char>>)
    requires
        forall|i: int| 0 <= i < ls.len() ==> !(#[trigger] ls[i]).contains('\n'),
    ensures
        file_lines(unlines(ls)) == ls,
        ls.len() > 0 ==> split_on(unlines(ls).drop_last(), '\n') == ls,
    decreases ls.len(),
{
    if ls.len() > 0 {
        let init = ls.drop_last();
        let l = ls.last();
        assert forall|i: int| 0 <= i < init.len() implies !(#[trigger] init[i]).contains('\n') by {
            assert(init[i] == ls[i]);
        }
        lemma_unlines_lines(init);
        let u = unlines(ls);
        assert(u.drop_last() =~= unlines(init) + l);
        crate::text::lemma_split_without_sep(l, '\n');
        if init.len() == 0 {
            assert(unlines(init) + l =~= l);
        } else {
            let x = unlines(init).drop_last();
            assert(unlines(init) =~= x + seq!['\n']);
            crate::text::lemma_split_concat(x, l, '\n');
            assert(unlines(init) + l =~= x + seq!['\n'] + l);
        }
        assert(split_on(u.drop_last(), '\n') =~= ls);
        crate::text::lemma_split_concat(u.drop_last(), Seq::<char>::empty(), '\n');
        assert(u =~= u.drop_last() + seq!['\n'] + Seq::<char>::empty());
        assert(split_on(Seq::<char>::empty(), '\n') == seq![Seq::<char>::empty()]);
        assert(split_on(u, '\n') =~= ls.push(Seq::<char>::empty()));
    } else {
        assert(split_on(Seq::<char>::empty(), '\n') == seq![Seq::<char>::empty()]);
    }
}

proof fn lemma_split_pieces_free(s: Seq<char>, sep: char)
    ensures
        forall|i: int|
            0 <= i < split_on(s, sep).len() ==> !(#[trigger] split_on(s, sep)[i]).contains(sep),
    decreases s.len(),
{
    if s.len() > 0 {
        let init = s.drop_last();
        lemma_split_pieces_free(init, sep);
        crate::text::lemma_split_nonempty(init, sep);
        let rest = split_on(init, sep);
        let p = split_on(s, sep);
        if s.last() != sep {
            let lp = rest.last().push(s.last());
            assert(!lp.contains(sep)) by {
                if lp.contains(sep) {
                    let k = choose|k: int| 0 <= k < lp.len() && lp[k] == sep;
                    assert(rest.last()[k] == sep);
                    assert(rest[rest.len() - 1].contains(sep));
                }
            }
            assert forall|i: int| 0 <= i < p.len() implies !(#[trigger] p[i]).contains(sep) by {
                if i < p.len() - 1 {
                    assert(p[i] == rest[i]);
                }
            }
        } else {
            assert forall|i: int| 0 <= i < p.len() implies !(#[trigger] p[i]).contains(sep) by {
                if i < p.len() - 1 {
                    assert(p[i] == rest[i]);
                } else {
                    assert(p[i] =~= Seq::<char>::empty());
                }
            }
        }
    }
}

proof fn lemma_encoded_one_line(e: EventView)
    requires
        e.storable(),
    ensures
        !encoded(e).contains('\n'),
{
    let t = iso_text(e.date);
    lemma_iso_text_digits(e.date, 0);
    let s = encoded(e);
    if s.contains('\n') {
        let i = choose|i: int| 0 <= i < s.len() && s[i] == '\n';
        let c = e.category;
        if i < 10 {
            lemma_iso_text_digits(e.date, i);
            assert(s[i] == t[i]);
        } else if 11 <= i < 11 + c.len() {
            assert(s[i] == c[i - 11]);
        } else if 12 + c.len() <= i {
            assert(s[i] == e.description[i - 12 - c.len()]);
        }
    }
}

proof fn lemma_all_rejects_nothing(es: Seq<EventView>, today: Date)
    ensures
        rejected(es, &Filter::All, today).len() == 0,
    decreases es.len(),
{
    if es.len() > 0 {
        lemma_all_rejects_nothing(es.drop_last(), today);
    }
}

/// How a delete on a store of canonical lines rewrites it: the header, then
/// the lines of the events that the filter rejects.
proof fn lemma_rewrite_parts(text: Seq<char>, f: &Filter, today: Date)
    requires
        canonical_lines(data_lines(text)),
        file_lines(text).len() > 0,
    ensures
        ({
            let ls = data_lines(text);
            let doomed = encodings(selected(loaded(ls), f, today));
            let rest = kept(ls, doomed);
            &&& canonical_lines(rest)
            &&& loaded(rest) == rejected(loaded(ls), f, today)
            &&& rewritten(text, doomed) == unlines(seq![file_lines(text)[0]] + rest)
            &&& file_lines(rewritten(text, doomed)) == seq![file_lines(text)[0]] + rest
            &&& data_lines(rewritten(text, doomed)) == rest
        }),
{
    let ls = data_lines(text);
    let es = loaded(ls);
    let sel = selected(es, f, today);
    let doomed = encodings(sel);
    lemma_canonical_loaded(ls);
    lemma_selected_members(es, f, today);
    assert forall|i: int| 0 <= i < ls.len() implies (doomed.contains(#[trigger] ls[i])
        <==> f.holds(decoded(ls[i])->Ok_0, today)) by {
        let e = decoded(ls[i])->Ok_0;
        assert(e == es[i]);
        if f.holds(e, today) {
            assert(es.contains(e));
            assert(sel.contains(e));
            let j = choose|j: int| 0 <= j < sel.len() && sel[j] == e;
            assert(doomed[j] == encoded(e));
        }
        if doomed.contains(ls[i]) {
            let j = choose|j: int| 0 <= j < doomed.len() && doomed[j] == ls[i];
            assert(sel.contains(sel[j]));
            assert(es.contains(sel[j]));
            let k = choose|k: int| 0 <= k < es.len() && es[k] == sel[j];
            assert(decoded(ls[k]) == Ok::<EventView, DecodeError>(es[k]));
            assert(es[k].storable());
            lemma_decode_encode(sel[j]);
        }
    }
    lemma_kept_rejected(ls, doomed, f, today);
    let rest = kept(ls, doomed);
    let h = file_lines(text)[0];
    let all = seq![h] + rest;
    lemma_split_pieces_free(text, '\n');
    crate::text::lemma_split_nonempty(text, '\n');
    assert(!h.contains('\n')) by {
        assert(file_lines(text)[0] == split_on(text, '\n')[0]);
    }
    assert forall|i: int| 0 <= i < all.len() implies !(#[trigger] all[i]).contains('\n') by {
        if i > 0 {
            assert(all[i] == rest[i - 1]);
            let e = decoded(rest[i - 1])->Ok_0;
            lemma_encoded_one_line(e);
        }
    }
    lemma_unlines_lines(all);
    assert(all.drop_first() =~= rest);
}

/// A delete takes out exactly what its preview shows. On a store whose data
/// lines are all canonical event lines, the rewrite without the lines of the
/// chosen events leaves a store that loads as the events the filter rejects,
/// in their order.
pub proof fn lemma_delete_removes_previewed(text: Seq<char>, f: &Filter, today: Date)
    requires
        canonical_lines(data_lines(text)),
    ensures
        loaded(data_lines(rewritten(text, encodings(selected(loaded(data_lines(text)), f, today)))))
            == rejected(loaded(data_lines(text)), f, today),
{
    if file_lines(text).len() > 0 {
        lemma_rewrite_parts(text, f, today);
    } else {
        assert(data_lines(Seq::<char>::empty()) =~= Seq::<Seq<char>>::empty()) by {
            assert(split_on(Seq::<char>::empty(), '\n') == seq![Seq::<char>::empty()]);
        }
    }
}

/// Deleting everything leaves the header alone; deleting everything again
/// finds nothing and changes nothing.
pub proof fn lemma_delete_all_twice(text: Seq<char>, today: Date)
    requires
        canonical_lines(data_lines(text)),
        file_lines(text).len() > 0,
    ensures
        ({
            let all = Filter::All;
            let first = rewritten(text, encodings(selected(loaded(data_lines(text)), &all, today)));
            &&& first == file_lines(text)[0] + seq!['\n']
            &&& selected(loaded(data_lines(first)), &all, today).len() == 0
            &&& rewritten(first, encodings(selected(loaded(data_lines(first)), &all, today)))
                == first
        }),
{
    let all = Filter::All;
    let ls = data_lines(text);
    let doomed = encodings(selected(loaded(ls), &all, today));
    lemma_rewrite_parts(text, &all, today);
    let rest = kept(ls, doomed);
    lemma_all_rejects_nothing(loaded(ls), today);
    lemma_canonical_loaded(rest);
    assert(rest.len() == 0);
    let h = file_lines(text)[0];
    assert(seq![h] + rest =~= seq![h]);
    assert(seq![h].drop_last() =~= Seq::<Seq<char>>::empty());
    let first = rewritten(text, doomed);
    assert(first == unlines(seq![h]));
    assert(unlines(seq![h]) == unlines(seq![h].drop_last()) + h + seq!['\n']);
    assert(first =~= h + seq!['\n']);
    assert(data_lines(first) == rest);
    assert(encodings(Seq::<EventView>::empty()) =~= Seq::<Seq<char>>::empty());
    assert(file_lines(first) == seq![h]);
    assert(seq![h].drop_first() =~= Seq::<Seq<char>>::empty());
    assert(kept(Seq::<Seq<char>>::empty(), Seq::<Seq<char>>::empty()) == Seq::<Seq<char>>::empty());
}

/// Appending the line of an event to a store text that ends with a line
/// break adds that line last, and the store then loads as before with the
/// event last.
pub proof fn lemma_add_then_load(text: Seq<char>, e: EventView)
    requires
        text.len() > 0,
        text.last() == '\n',
        e.storable(),
    ensures
        data_lines(text + encoded(e) + seq!['\n']) == data_lines(text).push(encoded(e)),
        loaded(data_lines(text + encoded(e) + seq!['\n'])) == loaded(data_lines(text)).push(e),
{
    let x = text.drop_last();
    let enc = encoded(e);
    let empty = Seq::<char>::empty();
    assert(text =~= x + seq!['\n'] + empty);
    crate::text::lemma_split_concat(x, empty, '\n');
    assert(split_on(empty, '\n') == seq![empty]);
    crate::text::lemma_split_nonempty(x, '\n');
    let px = split_on(x, '\n');
    assert(file_lines(text) =~= px);
    lemma_encoded_one_line(e);
    crate::text::lemma_split_without_sep(enc, '\n');
    crate::text::lemma_split_concat(enc, empty, '\n');
    assert(enc + seq!['\n'] =~= enc + seq!['\n'] + empty);
    let t2 = text + enc + seq!['\n'];
    assert(t2 =~= x + seq!['\n'] + (enc + seq!['\n']));
    crate::text::lemma_split_concat(x, enc + seq!['\n'], '\n');
    assert(split_on(t2, '\n') =~= px + seq![enc, empty]);
    assert(file_lines(t2) =~= px.push(enc));
    assert(data_lines(t2) =~= px.drop_first().push(enc));
    lemma_decode_encode(e);
    let d2 = data_lines(t2);
    assert(d2.drop_last() == data_lines(text));
}

} // verus!
