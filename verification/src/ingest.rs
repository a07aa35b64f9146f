use crate::eval::KeyState;
use crate::ga::ops::util::{str_to_vec, string_push, vec_to_str};
use crate::model::Model;
use crate::text::{lines, parse_i32, spec_lines, spec_parse_i32, spec_split_ws, split_ws};
use crate::types::{kc_from_str, spec_kc_from_str, Kc};
use vstd::prelude::*;

verus! {

/// Why a configuration or data text was refused.
#[derive(Debug, Clone, PartialEq, Eq)]
pub enum IngestError {
    /// A token that names no key code.
    UnknownKey(String),
    /// A token that is not an `i32`.
    BadInteger(String),
    /// A histogram line without the expected number of items.
    WeirdLine(String),
    /// Seed layouts of different sizes.
    NotSameSize,
    /// More bigram costs than the table holds.
    TooManyBigramCosts,
    /// Fewer bigram costs than the table holds.
    MissingBigramCosts,
}

/// An `IngestError`, with its text as characters.
pub enum IngestErrorView {
    UnknownKey(Seq<char>),
    BadInteger(Seq<char>),
    WeirdLine(Seq<char>),
    NotSameSize,
    TooManyBigramCosts,
    MissingBigramCosts,
}

impl View for IngestError {
    type V = IngestErrorView;

    open spec fn view(&self) -> IngestErrorView {
        match self {
            IngestError::UnknownKey(s) => IngestErrorView::UnknownKey(s@),
            IngestError::BadInteger(s) => IngestErrorView::BadInteger(s@),
            IngestError::WeirdLine(s) => IngestErrorView::WeirdLine(s@),
            IngestError::NotSameSize => IngestErrorView::NotSameSize,
            IngestError::TooManyBigramCosts => IngestErrorView::TooManyBigramCosts,
            IngestError::MissingBigramCosts => IngestErrorView::MissingBigramCosts,
        }
    }
}

/// The message an error is reported with.
pub open spec fn spec_message(e: IngestErrorView) -> Seq<char> {
    match e {
        IngestErrorView::UnknownKey(s) => "could not find "@ + s,
        IngestErrorView::BadInteger(s) => "invalid digit found in string: "@ + s,
        IngestErrorView::WeirdLine(s) => "weird unigrams line: "@ + s,
        IngestErrorView::NotSameSize => "not all layouts the same size"@,
        IngestErrorView::TooManyBigramCosts => "too many bigram costs"@,
        IngestErrorView::MissingBigramCosts => "missing bigram costs"@,
    }
}

impl IngestError {
    /// The message the error is reported with.
    pub fn message(&self) -> (r: String)
        ensures
            r@ == spec_message(self@),
    {
        let mut m = String::new();
        match self {
            IngestError::UnknownKey(s) => {
                m.append("could not find ");
                m.append(s.as_str());
            },
            IngestError::BadInteger(s) => {
                m.append("invalid digit found in string: ");
                m.append(s.as_str());
            },
            IngestError::WeirdLine(s) => {
                m.append("weird unigrams line: ");
                m.append(s.as_str());
            },
            IngestError::NotSameSize => {
                m.append("not all layouts the same size");
            },
            IngestError::TooManyBigramCosts => {
                m.append("too many bigram costs");
            },
            IngestError::MissingBigramCosts => {
                m.append("missing bigram costs");
            },
        }
        m
    }
}

/// `keys` followed by the key codes of the first `n` tokens of `toks`, empty tokens
/// skipped; the first token that names no key code is the error.
pub open spec fn push_keys(keys: Seq<Kc>, toks: Seq<Seq<char>>, n: int) -> Result<Seq<Kc>, Seq<char>>
    decreases n,
{
    if n <= 0 {
        Ok(keys)
    } else {
        match push_keys(keys, toks, n - 1) {
            Err(e) => Err(e),
            Ok(k) => if toks[n - 1].len() == 0 {
                Ok(k)
            } else {
                match spec_kc_from_str(toks[n - 1]) {
                    Some(kc) => Ok(k.push(kc)),
                    None => Err(toks[n - 1]),
                }
            },
        }
    }
}

/// An error among the first tokens stays the error when more tokens follow.
pub proof fn lemma_push_keys_err(keys: Seq<Kc>, toks: Seq<Seq<char>>, m: int, n: int)
    requires
        m <= n,
        push_keys(keys, toks, m) is Err,
    ensures
        push_keys(keys, toks, n) == push_keys(keys, toks, m),
    decreases n - m,
{
    if m < n {
        lemma_push_keys_err(keys, toks, m, n - 1);
    }
}

/// The seed layouts finished among the first `n` lines, and the keys of the layout under
/// way; an empty line finishes a layout. The error is a token that names no key code.
pub open spec fn seeds_acc(ls: Seq<Seq<char>>, n: int) -> Result<
    (Seq<Seq<Kc>>, Seq<Kc>),
    Seq<char>,
>
    decreases n,
{
    if n <= 0 {
        Ok((Seq::empty(), Seq::empty()))
    } else {
        match seeds_acc(ls, n - 1) {
            Err(e) => Err(e),
            Ok((lay, keys)) => {
                let line = ls[n - 1];
                let lay2 = if line.len() == 0 {
                    lay.push(keys)
                } else {
                    lay
                };
                let keys2 = if line.len() == 0 {
                    Seq::empty()
                } else {
                    keys
                };
                let pieces = spec_split_ws(line);
                match push_keys(keys2, pieces, pieces.len() as int) {
                    Err(e) => Err(e),
                    Ok(k) => Ok((lay2, k)),
                }
            },
        }
    }
}

/// An error among the first lines stays the error when more lines follow.
pub proof fn lemma_seeds_acc_err(ls: Seq<Seq<char>>, m: int, n: int)
    requires
        m <= n,
        seeds_acc(ls, m) is Err,
    ensures
        seeds_acc(ls, n) == seeds_acc(ls, m),
    decreases n - m,
{
    if m < n {
        lemma_seeds_acc_err(ls, m, n - 1);
    }
}

/// Whether all layouts have the size of the first.
pub open spec fn same_sizes(lay: Seq<Seq<Kc>>) -> bool {
    forall|i: int| 0 <= i < lay.len() ==> #[trigger] lay[i].len() == lay[0].len()
}

/// The seed layouts that `text` describes: key names separated by whitespace, layouts
/// separated by empty lines. Refused when a name is unknown (the first such) or when the
/// layouts differ in size.
pub open spec fn spec_seeds(text: Seq<char>) -> Result<Seq<Seq<Kc>>, IngestErrorView> {
    let ls = spec_lines(text);
    match seeds_acc(ls, ls.len() as int) {
        Err(tok) => Err(IngestErrorView::UnknownKey(tok)),
        Ok((lay, keys)) => {
            let all = if keys.len() > 0 {
                lay.push(keys)
            } else {
                lay
            };
            if same_sizes(all) {
                Ok(all)
            } else {
                Err(IngestErrorView::NotSameSize)
            }
        },
    }
}

/// Appends the key codes of `pieces` to `keys`, empty pieces skipped; the first piece that
/// names no key code is returned instead.
fn push_tokens(keys: &mut Vec<Kc>, pieces: &Vec<Vec<char>>) -> (r: Option<String>)
    ensures
        match r {
            None => push_keys(old(keys)@, pieces@.map_values(|p: Vec<char>| p@), pieces@.len() as int)
                == Ok::<Seq<Kc>, Seq<char>>(final(keys)@),
            Some(tok) => push_keys(
                old(keys)@,
                pieces@.map_values(|p: Vec<char>| p@),
                pieces@.len() as int,
            ) == Err::<Seq<Kc>, Seq<char>>(tok@),
        },
{
    let ghost toks = pieces@.map_values(|p: Vec<char>| p@);
    let ghost keys0 = keys@;
    let mut j: usize = 0;
    while j < pieces.len()
        invariant
            j <= pieces@.len(),
            toks == pieces@.map_values(|p: Vec<char>| p@),
            keys0 == old(keys)@,
            push_keys(keys0, toks, j as int) == Ok::<Seq<Kc>, Seq<char>>(keys@),
        decreases pieces.len() - j,
    {
        let tok = &pieces[j];
        if tok.len() > 0 {
            let s = vec_to_str(tok.as_slice());
            match kc_from_str(s.as_str()) {
                Some(k) => keys.push(k),
                None => {
                    proof {
                        assert(toks[j as int] == s@);
                        assert(push_keys(keys0, toks, j as int + 1) == Err::<Seq<Kc>, Seq<char>>(
                            s@,
                        ));
                        lemma_push_keys_err(keys0, toks, j as int + 1, pieces@.len() as int);
                    }
                    return Some(s);
                },
            }
        }
        j = j + 1;
    }
    None
}

/// The seed layouts that `text` describes: key names separated by whitespace, layouts
/// separated by empty lines.
pub fn parse_seeds(text: &str) -> (r: Result<Vec<KeyState>, IngestError>)
    ensures
        match r {
            Ok(v) => spec_seeds(text@) == Ok::<Seq<Seq<Kc>>, IngestErrorView>(
                v@.map_values(|k: KeyState| k.0@),
            ),
            Err(e) => spec_seeds(text@) == Err::<Seq<Seq<Kc>>, IngestErrorView>(e@),
        },
{
    let chars = str_to_vec(text);
    let ls = lines(&chars);
    let ghost lsv = ls@.map_values(|l: Vec<char>| l@);
    let mut layouts: Vec<KeyState> = Vec::new();
    let mut keys: Vec<Kc> = Vec::new();
    proof {
        assert(layouts@.map_values(|k: KeyState| k.0@) =~= Seq::<Seq<Kc>>::empty());
        assert(keys@ =~= Seq::<Kc>::empty());
    }
    let mut i: usize = 0;
    while i < ls.len()
        invariant
            i <= ls@.len(),
            lsv == ls@.map_values(|l: Vec<char>| l@),
            lsv == spec_lines(text@),
            seeds_acc(lsv, i as int) == Ok::<(Seq<Seq<Kc>>, Seq<Kc>), Seq<char>>(
                (layouts@.map_values(|k: KeyState| k.0@), keys@),
            ),
        decreases ls.len() - i,
    {
        let line = &ls[i];
        if line.len() == 0 {
            let ghost lay = layouts@;
            let mut done: Vec<Kc> = Vec::new();
            std::mem::swap(&mut done, &mut keys);
            layouts.push(KeyState(done));
            proof {
                assert(layouts@.map_values(|k: KeyState| k.0@) =~= lay.map_values(
                    |k: KeyState| k.0@,
                ).push(layouts@.last().0@));
            }
        }
        let pieces = split_ws(line);
        match push_tokens(&mut keys, &pieces) {
            None => {},
            Some(tok) => {
                proof {
                    lemma_seeds_acc_err(lsv, i as int + 1, lsv.len() as int);
                }
                return Err(IngestError::UnknownKey(tok));
            },
        }
        i = i + 1;
    }
    if keys.len() > 0 {
        let ghost lay = layouts@;
        let ghost k = keys@;
        layouts.push(KeyState(keys));
        proof {
            assert(layouts@.map_values(|k: KeyState| k.0@) =~= lay.map_values(|k: KeyState| k.0@).push(
                k,
            ));
        }
    }
    let ghost all = layouts@.map_values(|k: KeyState| k.0@);
    proof {
        assert(spec_seeds(text@) == if same_sizes(all) {
            Ok::<Seq<Seq<Kc>>, IngestErrorView>(all)
        } else {
            Err::<Seq<Seq<Kc>>, IngestErrorView>(IngestErrorView::NotSameSize)
        });
    }
    let mut k: usize = 0;
    while k < layouts.len()
        invariant
            k <= layouts@.len(),
            all == layouts@.map_values(|k: KeyState| k.0@),
            spec_seeds(text@) == if same_sizes(all) {
                Ok::<Seq<Seq<Kc>>, IngestErrorView>(all)
            } else {
                Err::<Seq<Seq<Kc>>, IngestErrorView>(IngestErrorView::NotSameSize)
            },
            forall|j: int| 0 <= j < k ==> #[trigger] all[j].len() == all[0].len(),
        decreases layouts.len() - k,
    {
        if layouts[k].0.len() != layouts[0].0.len() {
            proof {
                assert(all[k as int].len() != all[0].len());
            }
            return Err(IngestError::NotSameSize);
        }
        k = k + 1;
    }
    Ok(layouts)
}

/// One histogram line: its key codes and its count, as written.
#[derive(Debug, Clone, PartialEq, Eq)]
pub struct HistEntry {
    pub keys: Vec<Kc>,
    pub count: String,
}

/// The key codes of the first `n` items; the first item that names no key code is the
/// error.
pub open spec fn item_keys(items: Seq<Seq<char>>, n: int) -> Result<Seq<Kc>, Seq<char>>
    decreases n,
{
    if n <= 0 {
        Ok(Seq::empty())
    } else {
        match item_keys(items, n - 1) {
            Err(e) => Err(e),
            Ok(k) => match spec_kc_from_str(items[n - 1]) {
                Some(kc) => Ok(k.push(kc)),
                None => Err(items[n - 1]),
            },
        }
    }
}

/// An error among the first items stays the error when more items follow.
pub proof fn lemma_item_keys_err(items: Seq<Seq<char>>, m: int, n: int)
    requires
        m <= n,
        item_keys(items, m) is Err,
    ensures
        item_keys(items, n) == item_keys(items, m),
    decreases n - m,
{
    if m < n {
        lemma_item_keys_err(items, m, n - 1);
    }
}

/// A histogram line of `arity` keys: its items between whitespace characters (empty ones
/// included) must be the key names and then the count.
pub open spec fn hist_line(line: Seq<char>, arity: int) -> Result<
    (Seq<Kc>, Seq<char>),
    IngestErrorView,
> {
    let items = spec_split_ws(line);
    if items.len() != arity + 1 {
        Err(IngestErrorView::WeirdLine(line))
    } else {
        match item_keys(items, arity) {
            Err(t) => Err(IngestErrorView::UnknownKey(t)),
            Ok(k) => Ok((k, items[arity])),
        }
    }
}

/// The entries of the first `n` lines of `ls`; the first line refused is the error.
pub open spec fn hist_acc(ls: Seq<Seq<char>>, arity: int, n: int) -> Result<
    Seq<(Seq<Kc>, Seq<char>)>,
    IngestErrorView,
>
    decreases n,
{
    if n <= 0 {
        Ok(Seq::empty())
    } else {
        match hist_acc(ls, arity, n - 1) {
            Err(e) => Err(e),
            Ok(es) => match hist_line(ls[n - 1], arity) {
                Err(e) => Err(e),
                Ok(entry) => Ok(es.push(entry)),
            },
        }
    }
}

/// An error among the first lines stays the error when more lines follow.
pub proof fn lemma_hist_acc_err(ls: Seq<Seq<char>>, arity: int, m: int, n: int)
    requires
        m <= n,
        hist_acc(ls, arity, m) is Err,
    ensures
        hist_acc(ls, arity, n) == hist_acc(ls, arity, m),
    decreases n - m,
{
    if m < n {
        lemma_hist_acc_err(ls, arity, m, n - 1);
    }
}

/// The lines of `text` after the first, which is a header.
pub open spec fn data_lines(text: Seq<char>) -> Seq<Seq<char>> {
    let ls = spec_lines(text);
    if ls.len() > 0 {
        ls.drop_first()
    } else {
        ls
    }
}

/// The entries of a histogram of `arity` keys: one per line after the header line, each
/// made of the key names and the count.
pub open spec fn spec_histogram(text: Seq<char>, arity: int) -> Result<
    Seq<(Seq<Kc>, Seq<char>)>,
    IngestErrorView,
> {
    let ls = data_lines(text);
    hist_acc(ls, arity, ls.len() as int)
}

/// The entry of one histogram line of `arity` keys.
fn parse_hist_line(line: &Vec<char>, arity: usize) -> (r: Result<HistEntry, IngestError>)
    requires
        arity < usize::MAX,
    ensures
        match r {
            Ok(e) => hist_line(line@, arity as int) == Ok::<
                (Seq<Kc>, Seq<char>),
                IngestErrorView,
            >((e.keys@, e.count@)),
            Err(e) => hist_line(line@, arity as int) == Err::<
                (Seq<Kc>, Seq<char>),
                IngestErrorView,
            >(e@),
        },
{
    let items = split_ws(line);
    let ghost iv = items@.map_values(|p: Vec<char>| p@);
    if items.len() != arity + 1 {
        return Err(IngestError::WeirdLine(vec_to_str(line.as_slice())));
    }
    let mut keys: Vec<Kc> = Vec::new();
    proof {
        assert(keys@ =~= Seq::<Kc>::empty());
    }
    let mut j: usize = 0;
    while j < arity
        invariant
            j <= arity,
            arity + 1 == items@.len(),
            iv == items@.map_values(|p: Vec<char>| p@),
            iv == spec_split_ws(line@),
            item_keys(iv, j as int) == Ok::<Seq<Kc>, Seq<char>>(keys@),
        decreases arity - j,
    {
        let s = vec_to_str(items[j].as_slice());
        match kc_from_str(s.as_str()) {
            Some(k) => keys.push(k),
            None => {
                proof {
                    assert(iv[j as int] == s@);
                    assert(item_keys(iv, j as int + 1) == Err::<Seq<Kc>, Seq<char>>(s@));
                    lemma_item_keys_err(iv, j as int + 1, arity as int);
                }
                return Err(IngestError::UnknownKey(s));
            },
        }
        j = j + 1;
    }
    let count = vec_to_str(items[arity].as_slice());
    Ok(HistEntry { keys, count })
}

/// The entries of a histogram of `arity` keys: one per line after the header line, each
/// made of the key names and the count, separated by single whitespace characters.
pub fn parse_histogram(text: &str, arity: usize) -> (r: Result<Vec<HistEntry>, IngestError>)
    requires
        arity < usize::MAX,
    ensures
        match r {
            Ok(v) => spec_histogram(text@, arity as int) == Ok::<
                Seq<(Seq<Kc>, Seq<char>)>,
                IngestErrorView,
            >(v@.map_values(|e: HistEntry| (e.keys@, e.count@))),
            Err(e) => spec_histogram(text@, arity as int) == Err::<
                Seq<(Seq<Kc>, Seq<char>)>,
                IngestErrorView,
            >(e@),
        },
{
    let chars = str_to_vec(text);
    let ls = lines(&chars);
    let ghost lsv = ls@.map_values(|l: Vec<char>| l@);
    let ghost body = data_lines(text@);
    let mut out: Vec<HistEntry> = Vec::new();
    proof {
        assert(out@.map_values(|e: HistEntry| (e.keys@, e.count@)) =~= Seq::<
            (Seq<Kc>, Seq<char>),
        >::empty());
    }
    if ls.len() == 0 {
        return Ok(out);
    }
    let mut i: usize = 1;
    while i < ls.len()
        invariant
            1 <= i <= ls@.len(),
            arity < usize::MAX,
            lsv == ls@.map_values(|l: Vec<char>| l@),
            lsv == spec_lines(text@),
            body == lsv.drop_first(),
            hist_acc(body, arity as int, i - 1) == Ok::<
                Seq<(Seq<Kc>, Seq<char>)>,
                IngestErrorView,
            >(out@.map_values(|e: HistEntry| (e.keys@, e.count@))),
        decreases ls.len() - i,
    {
        proof {
            assert(body[i - 1] == ls@[i as int]@);
        }
        match parse_hist_line(&ls[i], arity) {
            Ok(e) => {
                let ghost o = out@;
                out.push(e);
                proof {
                    assert(out@.map_values(|e: HistEntry| (e.keys@, e.count@)) =~= o.map_values(
                        |e: HistEntry| (e.keys@, e.count@),
                    ).push((e.keys@, e.count@)));
                }
            },
            Err(e) => {
                proof {
                    lemma_hist_acc_err(body, arity as int, i as int, body.len() as int);
                }
                return Err(e);
            },
        }
        i = i + 1;
    }
    Ok(out)
}

/// The sections of a model configuration; a line that starts with a section's name
/// begins it.
#[derive(Debug, Copy, Clone, Ord, PartialOrd, Eq, PartialEq, Structural, Hash)]
pub enum ParseStage {
    Layout,
    Keys,
    Fixed,
    UnigramCost,
    BigramCost,
    Row,
    Hand,
    Finger,
}

/// The number of bigram costs: four first fingers, four second fingers, five row jumps.
pub const NUM_BIGRAM_COSTS: usize = 80;

/// A model configuration as read: the geometry, and the costs as written.
#[derive(Debug, Clone, Default, PartialEq)]
pub struct ModelText {
    pub model: Model,
    pub unigram_cost: Vec<String>,
    pub bigram_cost: Vec<String>,
}

/// What has been read of a model configuration so far, and the section under way.
pub struct ModelAcc {
    pub stage: ParseStage,
    pub layout: Seq<char>,
    pub keys: Seq<Kc>,
    pub fixed: Seq<Kc>,
    pub unigram: Seq<Seq<char>>,
    pub bigram: Seq<Seq<char>>,
    pub row: Seq<i32>,
    pub hand: Seq<i32>,
    pub finger: Seq<i32>,
}

/// What `mt` holds, in the section `stage`.
pub open spec fn acc_of(stage: ParseStage, mt: ModelText) -> ModelAcc {
    ModelAcc {
        stage,
        layout: mt.model.layout@,
        keys: mt.model.universe@,
        fixed: mt.model.fixed@,
        unigram: mt.unigram_cost@.map_values(|s: String| s@),
        bigram: mt.bigram_cost@.map_values(|s: String| s@),
        row: mt.model.row@,
        hand: mt.model.hand@,
        finger: mt.model.finger@,
    }
}

/// Whether `line` starts with `w`.
pub open spec fn starts_with(line: Seq<char>, w: Seq<char>) -> bool {
    w.len() <= line.len() && line.take(w.len() as int) == w
}

/// The section that `line` begins, if it begins one.
pub open spec fn spec_header(line: Seq<char>) -> Option<ParseStage> {
    if starts_with(line, seq!['l', 'a', 'y', 'o', 'u', 't']) {
        Some(ParseStage::Layout)
    } else if starts_with(line, seq!['k', 'e', 'y', 's']) {
        Some(ParseStage::Keys)
    } else if starts_with(line, seq!['f', 'i', 'x', 'e', 'd']) {
        Some(ParseStage::Fixed)
    } else if starts_with(
        line,
        seq!['u', 'n', 'i', 'g', 'r', 'a', 'm', '_', 'c', 'o', 's', 't'],
    ) {
        Some(ParseStage::UnigramCost)
    } else if starts_with(line, seq!['b', 'i', 'g', 'r', 'a', 'm', '_', 'c', 'o', 's', 't']) {
        Some(ParseStage::BigramCost)
    } else if starts_with(line, seq!['r', 'o', 'w']) {
        Some(ParseStage::Row)
    } else if starts_with(line, seq!['h', 'a', 'n', 'd']) {
        Some(ParseStage::Hand)
    } else if starts_with(line, seq!['f', 'i', 'n', 'g', 'e', 'r']) {
        Some(ParseStage::Finger)
    } else {
        None
    }
}

/// `acc` after the token `tok` of a line of its section; empty tokens change nothing.
pub open spec fn model_token(acc: ModelAcc, tok: Seq<char>) -> Result<ModelAcc, IngestErrorView> {
    if tok.len() == 0 {
        Ok(acc)
    } else {
        match acc.stage {
            ParseStage::Layout => Ok(acc),
            ParseStage::Keys => match spec_kc_from_str(tok) {
                Some(k) => Ok(ModelAcc { keys: acc.keys.push(k), ..acc }),
                None => Err(IngestErrorView::UnknownKey(tok)),
            },
            ParseStage::Fixed => Ok(
                ModelAcc {
                    fixed: acc.fixed.push(
                        match spec_kc_from_str(tok) {
                            Some(k) => k,
                            None => Kc::No,
                        },
                    ),
                    ..acc
                },
            ),
            ParseStage::UnigramCost => Ok(ModelAcc { unigram: acc.unigram.push(tok), ..acc }),
            ParseStage::BigramCost => if acc.bigram.len() >= NUM_BIGRAM_COSTS {
                Err(IngestErrorView::TooManyBigramCosts)
            } else {
                Ok(ModelAcc { bigram: acc.bigram.push(tok), ..acc })
            },
            ParseStage::Row => match spec_parse_i32(tok) {
                Some(v) => Ok(ModelAcc { row: acc.row.push(v), ..acc }),
                None => Err(IngestErrorView::BadInteger(tok)),
            },
            ParseStage::Hand => match spec_parse_i32(tok) {
                Some(v) => Ok(ModelAcc { hand: acc.hand.push(v), ..acc }),
                None => Err(IngestErrorView::BadInteger(tok)),
            },
            ParseStage::Finger => match spec_parse_i32(tok) {
                Some(v) => Ok(ModelAcc { finger: acc.finger.push(v), ..acc }),
                None => Err(IngestErrorView::BadInteger(tok)),
            },
        }
    }
}

/// `acc` after the first `n` tokens of `toks`; the first token refused is the error.
pub open spec fn model_tokens(acc: ModelAcc, toks: Seq<Seq<char>>, n: int) -> Result<
    ModelAcc,
    IngestErrorView,
>
    decreases n,
{
    if n <= 0 {
        Ok(acc)
    } else {
        match model_tokens(acc, toks, n - 1) {
            Err(e) => Err(e),
            Ok(a) => model_token(a, toks[n - 1]),
        }
    }
}

/// An error among the first tokens stays the error when more tokens follow.
pub proof fn lemma_model_tokens_err(acc: ModelAcc, toks: Seq<Seq<char>>, m: int, n: int)
    requires
        m <= n,
        model_tokens(acc, toks, m) is Err,
    ensures
        model_tokens(acc, toks, n) == model_tokens(acc, toks, m),
    decreases n - m,
{
    if m < n {
        lemma_model_tokens_err(acc, toks, m, n - 1);
    }
}

/// `acc` after the line `line`: a section's name begins that section, a line of the layout
/// section is added to the layout, any other line is split into tokens.
pub open spec fn model_line(acc: ModelAcc, line: Seq<char>) -> Result<ModelAcc, IngestErrorView> {
    match spec_header(line) {
        Some(st) => Ok(ModelAcc { stage: st, ..acc }),
        None => if acc.stage == ParseStage::Layout {
            Ok(ModelAcc { layout: acc.layout + line.push('\n'), ..acc })
        } else {
            let toks = spec_split_ws(line);
            model_tokens(acc, toks, toks.len() as int)
        },
    }
}

/// Nothing read yet: the layout section under way.
pub open spec fn model_start() -> ModelAcc {
    ModelAcc {
        stage: ParseStage::Layout,
        layout: Seq::empty(),
        keys: Seq::empty(),
        fixed: Seq::empty(),
        unigram: Seq::empty(),
        bigram: Seq::empty(),
        row: Seq::empty(),
        hand: Seq::empty(),
        finger: Seq::empty(),
    }
}

/// What the first `n` lines of `ls` say; the first refusal is the error.
pub open spec fn model_lines(ls: Seq<Seq<char>>, n: int) -> Result<ModelAcc, IngestErrorView>
    decreases n,
{
    if n <= 0 {
        Ok(model_start())
    } else {
        match model_lines(ls, n - 1) {
            Err(e) => Err(e),
            Ok(a) => model_line(a, ls[n - 1]),
        }
    }
}

/// An error among the first lines stays the error when more lines follow.
pub proof fn lemma_model_lines_err(ls: Seq<Seq<char>>, m: int, n: int)
    requires
        m <= n,
        model_lines(ls, m) is Err,
    ensures
        model_lines(ls, n) == model_lines(ls, m),
    decreases n - m,
{
    if m < n {
        lemma_model_lines_err(ls, m, n - 1);
    }
}

/// What the lines of a model configuration say, read in order from the layout section on.
pub open spec fn spec_model_lines(text: Seq<char>) -> Result<ModelAcc, IngestErrorView> {
    let ls = spec_lines(text);
    model_lines(ls, ls.len() as int)
}

/// What a model configuration says: its lines, which must hold all 80 bigram costs.
pub open spec fn spec_model(text: Seq<char>) -> Result<ModelAcc, IngestErrorView> {
    match spec_model_lines(text) {
        Ok(a) => if a.bigram.len() < NUM_BIGRAM_COSTS {
            Err(IngestErrorView::MissingBigramCosts)
        } else {
            Ok(a)
        },
        Err(e) => Err(e),
    }
}

/// Whether `line` starts with `w`.
fn line_starts_with(line: &Vec<char>, w: &str) -> (r: bool)
    ensures
        r == starts_with(line@, w@),
{
    let wv = str_to_vec(w);
    if wv.len() > line.len() {
        return false;
    }
    let mut i: usize = 0;
    while i < wv.len()
        invariant
            wv@ == w@,
            wv@.len() <= line@.len(),
            i <= wv@.len(),
            forall|j: int| 0 <= j < i ==> line@[j] == wv@[j],
        decreases wv.len() - i,
    {
        if line[i] != wv[i] {
            return false;
        }
        i = i + 1;
    }
    proof {
        assert(line@.take(w@.len() as int) =~= w@);
    }
    true
}

/// The section that `line` begins, if it begins one.
fn header(line: &Vec<char>) -> (r: Option<ParseStage>)
    ensures
        r == spec_header(line@),
{
    proof {
        reveal_strlit("layout");
        reveal_strlit("keys");
        reveal_strlit("fixed");
        reveal_strlit("unigram_cost");
        reveal_strlit("bigram_cost");
        reveal_strlit("row");
        reveal_strlit("hand");
        reveal_strlit("finger");
        assert("layout"@ =~= seq!['l', 'a', 'y', 'o', 'u', 't']);
        assert("keys"@ =~= seq!['k', 'e', 'y', 's']);
        assert("fixed"@ =~= seq!['f', 'i', 'x', 'e', 'd']);
        assert("unigram_cost"@ =~= seq!['u', 'n', 'i', 'g', 'r', 'a', 'm', '_', 'c', 'o', 's', 't']);
        assert("bigram_cost"@ =~= seq!['b', 'i', 'g', 'r', 'a', 'm', '_', 'c', 'o', 's', 't']);
        assert("row"@ =~= seq!['r', 'o', 'w']);
        assert("hand"@ =~= seq!['h', 'a', 'n', 'd']);
        assert("finger"@ =~= seq!['f', 'i', 'n', 'g', 'e', 'r']);
    }
    if line_starts_with(line, "layout") {
        Some(ParseStage::Layout)
    } else if line_starts_with(line, "keys") {
        Some(ParseStage::Keys)
    } else if line_starts_with(line, "fixed") {
        Some(ParseStage::Fixed)
    } else if line_starts_with(line, "unigram_cost") {
        Some(ParseStage::UnigramCost)
    } else if line_starts_with(line, "bigram_cost") {
        Some(ParseStage::BigramCost)
    } else if line_starts_with(line, "row") {
        Some(ParseStage::Row)
    } else if line_starts_with(line, "hand") {
        Some(ParseStage::Hand)
    } else if line_starts_with(line, "finger") {
        Some(ParseStage::Finger)
    } else {
        None
    }
}

/// Reads one token of a line of section `stage` into `mt`.
fn read_token(stage: ParseStage, mt: &mut ModelText, tok: &Vec<char>) -> (r: Result<(), IngestError>)
    ensures
        match r {
            Ok(_) => model_token(acc_of(stage, *old(mt)), tok@) == Ok::<ModelAcc, IngestErrorView>(
                acc_of(stage, *final(mt)),
            ),
            Err(e) => model_token(acc_of(stage, *old(mt)), tok@) == Err::<
                ModelAcc,
                IngestErrorView,
            >(e@),
        },
{
    if tok.len() == 0 {
        return Ok(());
    }
    let ghost a = acc_of(stage, *mt);
    let s = vec_to_str(tok.as_slice());
    match stage {
        ParseStage::Layout => Ok(()),
        ParseStage::Keys => match kc_from_str(s.as_str()) {
            Some(k) => {
                mt.model.universe.push(k);
                proof {
                    assert(acc_of(stage, *mt) == ModelAcc { keys: a.keys.push(k), ..a });
                }
                Ok(())
            },
            None => Err(IngestError::UnknownKey(s)),
        },
        ParseStage::Fixed => {
            let k = match kc_from_str(s.as_str()) {
                Some(k) => k,
                None => Kc::No,
            };
            mt.model.fixed.push(k);
            proof {
                assert(acc_of(stage, *mt) == ModelAcc { fixed: a.fixed.push(k), ..a });
            }
            Ok(())
        },
        ParseStage::UnigramCost => {
            let ghost u = mt.unigram_cost@;
            mt.unigram_cost.push(s);
            proof {
                assert(mt.unigram_cost@.map_values(|s: String| s@) =~= u.map_values(
                    |s: String| s@,
                ).push(tok@));
                assert(acc_of(stage, *mt) == ModelAcc { unigram: a.unigram.push(tok@), ..a });
            }
            Ok(())
        },
        ParseStage::BigramCost => {
            if mt.bigram_cost.len() >= NUM_BIGRAM_COSTS {
                return Err(IngestError::TooManyBigramCosts);
            }
            let ghost b = mt.bigram_cost@;
            mt.bigram_cost.push(s);
            proof {
                assert(mt.bigram_cost@.map_values(|s: String| s@) =~= b.map_values(
                    |s: String| s@,
                ).push(tok@));
                assert(acc_of(stage, *mt) == ModelAcc { bigram: a.bigram.push(tok@), ..a });
            }
            Ok(())
        },
        ParseStage::Row => match parse_i32(tok) {
            Some(v) => {
                mt.model.row.push(v);
                proof {
                    assert(acc_of(stage, *mt) == ModelAcc { row: a.row.push(v), ..a });
                }
                Ok(())
            },
            None => Err(IngestError::BadInteger(s)),
        },
        ParseStage::Hand => match parse_i32(tok) {
            Some(v) => {
                mt.model.hand.push(v);
                proof {
                    assert(acc_of(stage, *mt) == ModelAcc { hand: a.hand.push(v), ..a });
                }
                Ok(())
            },
            None => Err(IngestError::BadInteger(s)),
        },
        ParseStage::Finger => match parse_i32(tok) {
            Some(v) => {
                mt.model.finger.push(v);
                proof {
                    assert(acc_of(stage, *mt) == ModelAcc { finger: a.finger.push(v), ..a });
                }
                Ok(())
            },
            None => Err(IngestError::BadInteger(s)),
        },
    }
}

/// What a model configuration says: a layout format string, then sections each begun by
/// a line starting with its name (`keys`, `fixed`, `unigram_cost`, `bigram_cost`, `row`,
/// `hand`, `finger`, or `layout` again) and made of whitespace-separated tokens. Keys
/// must be known key names, unknown fixed keys stand for none, rows, hands and fingers
/// must be `i32`s, and there must be exactly 80 bigram costs. The costs are kept as
/// written.
///
/// A bigram-cost section of another size is a broken configuration rather than a bad
/// token: the program stops on it. Here it is reported as `TooManyBigramCosts` (the
/// 81st cost) or `MissingBigramCosts` (fewer than 80 at the end), so that the caller
/// decides how to stop; the program's loader turns both into a panic.
pub fn parse_model(text: &str) -> (r: Result<ModelText, IngestError>)
    ensures
        match r {
            Ok(mt) => spec_model(text@) == Ok::<ModelAcc, IngestErrorView>(
                acc_of(spec_model(text@)->Ok_0.stage, mt),
            ),
            Err(e) => spec_model(text@) == Err::<ModelAcc, IngestErrorView>(e@),
        },
{
    let chars = str_to_vec(text);
    let ls = lines(&chars);
    let ghost lsv = ls@.map_values(|l: Vec<char>| l@);
    let mut stage = ParseStage::Layout;
    let mut mt = ModelText {
        model: Model {
            layout: String::new(),
            universe: Vec::new(),
            fixed: Vec::new(),
            row: Vec::new(),
            hand: Vec::new(),
            finger: Vec::new(),
        },
        unigram_cost: Vec::new(),
        bigram_cost: Vec::new(),
    };
    proof {
        assert(mt.unigram_cost@.map_values(|s: String| s@) =~= Seq::<Seq<char>>::empty());
        assert(mt.bigram_cost@.map_values(|s: String| s@) =~= Seq::<Seq<char>>::empty());
        assert(mt.model.layout@ =~= Seq::<char>::empty());
        assert(mt.model.universe@ =~= Seq::<Kc>::empty());
        assert(mt.model.fixed@ =~= Seq::<Kc>::empty());
        assert(mt.model.row@ =~= Seq::<i32>::empty());
        assert(mt.model.hand@ =~= Seq::<i32>::empty());
        assert(mt.model.finger@ =~= Seq::<i32>::empty());
        assert(acc_of(stage, mt) == model_start());
    }
    let mut i: usize = 0;
    while i < ls.len()
        invariant
            i <= ls@.len(),
            lsv == ls@.map_values(|l: Vec<char>| l@),
            lsv == spec_lines(text@),
            model_lines(lsv, i as int) == Ok::<ModelAcc, IngestErrorView>(acc_of(stage, mt)),
        decreases ls.len() - i,
    {
        let line = &ls[i];
        proof {
            assert(lsv[i as int] == line@);
        }
        match header(line) {
            Some(st) => {
                proof {
                    assert(acc_of(st, mt) == ModelAcc { stage: st, ..acc_of(stage, mt) });
                }
                stage = st;
            },
            None => {
                if stage == ParseStage::Layout {
                    let ghost a = acc_of(stage, mt);
                    let s = vec_to_str(line.as_slice());
                    mt.model.layout.append(s.as_str());
                    string_push(&mut mt.model.layout, '\n');
                    proof {
                        assert(mt.model.layout@ =~= a.layout + line@.push('\n'));
                        assert(acc_of(stage, mt) == ModelAcc {
                            layout: a.layout + line@.push('\n'),
                            ..a
                        });
                    }
                } else {
                    let pieces = split_ws(line);
                    let ghost toks = pieces@.map_values(|p: Vec<char>| p@);
                    let ghost a0 = acc_of(stage, mt);
                    let mut j: usize = 0;
                    while j < pieces.len()
                        invariant
                            j <= pieces@.len(),
                            i < ls@.len(),
                            lsv == ls@.map_values(|l: Vec<char>| l@),
                            lsv == spec_lines(text@),
                            toks == pieces@.map_values(|p: Vec<char>| p@),
                            toks == spec_split_ws(lsv[i as int]),
                            stage != ParseStage::Layout,
                            spec_header(lsv[i as int]) is None,
                            model_lines(lsv, i as int) == Ok::<ModelAcc, IngestErrorView>(a0),
                            a0.stage == stage,
                            model_tokens(a0, toks, j as int) == Ok::<ModelAcc, IngestErrorView>(
                                acc_of(stage, mt),
                            ),
                        decreases pieces.len() - j,
                    {
                        match read_token(stage, &mut mt, &pieces[j]) {
                            Ok(_) => {},
                            Err(e) => {
                                proof {
                                    lemma_model_tokens_err(
                                        a0,
                                        toks,
                                        j as int + 1,
                                        toks.len() as int,
                                    );
                                    lemma_model_lines_err(lsv, i as int + 1, lsv.len() as int);
                                }
                                return Err(e);
                            },
                        }
                        j = j + 1;
                    }
                }
            },
        }
        i = i + 1;
    }
    proof {
        assert(acc_of(stage, mt).bigram.len() == mt.bigram_cost.len());
    }
    if mt.bigram_cost.len() < NUM_BIGRAM_COSTS {
        return Err(IngestError::MissingBigramCosts);
    }
    Ok(mt)
}

/// The section in effect after the first `n` lines of `ls`: that of the last line among them
/// that begins a section, the layout section if none does.
pub open spec fn section_of(ls: Seq<Seq<char>>, n: int) -> ParseStage
    decreases n,
{
    if n <= 0 {
        ParseStage::Layout
    } else {
        match spec_header(ls[n - 1]) {
            Some(st) => st,
            None => section_of(ls, n - 1),
        }
    }
}

/// The lines of the layout section among the first `n` lines of `ls`, each ended by a
/// newline, one after the other.
pub open spec fn layout_text(ls: Seq<Seq<char>>, n: int) -> Seq<char>
    decreases n,
{
    if n <= 0 {
        Seq::empty()
    } else {
        layout_text(ls, n - 1) + if spec_header(ls[n - 1]) is None && section_of(ls, n - 1) == ParseStage::Layout {
            ls[n - 1].push('\n')
        } else {
            Seq::empty()
        }
    }
}

/// The non-empty tokens among the first `n` of `toks`, in order.
pub open spec fn nonempty_upto(toks: Seq<Seq<char>>, n: int) -> Seq<Seq<char>>
    decreases n,
{
    if n <= 0 {
        Seq::empty()
    } else {
        nonempty_upto(toks, n - 1) + if toks[n - 1].len() > 0 {
            seq![toks[n - 1]]
        } else {
            Seq::empty()
        }
    }
}

/// The tokens of the lines of section `st` (not the layout section) among the first `n`
/// lines of `ls`, in reading order.
pub open spec fn section_tokens(ls: Seq<Seq<char>>, n: int, st: ParseStage) -> Seq<Seq<char>>
    decreases n,
{
    if n <= 0 {
        Seq::empty()
    } else {
        section_tokens(ls, n - 1, st) + if spec_header(ls[n - 1]) is None && section_of(ls, n - 1) == st && st
            != ParseStage::Layout {
            let toks = spec_split_ws(ls[n - 1]);
            nonempty_upto(toks, toks.len() as int)
        } else {
            Seq::empty()
        }
    }
}

/// `new` is `old` followed by the key codes the tokens `t` name.
pub open spec fn keys_extend(old: Seq<Kc>, new: Seq<Kc>, t: Seq<Seq<char>>) -> bool {
    &&& new.len() == old.len() + t.len()
    &&& forall|i: int| 0 <= i < old.len() ==> #[trigger] new[i] == old[i]
    &&& forall|i: int| 0 <= i < t.len() ==> spec_kc_from_str(#[trigger] t[i]) == Some(new[old.len() + i])
}

/// `new` is `old` followed by the key codes the tokens `t` name, none for an unknown name.
pub open spec fn fixed_extend(old: Seq<Kc>, new: Seq<Kc>, t: Seq<Seq<char>>) -> bool {
    &&& new.len() == old.len() + t.len()
    &&& forall|i: int| 0 <= i < old.len() ==> #[trigger] new[i] == old[i]
    &&& forall|i: int|
        0 <= i < t.len() ==> new[old.len() + i] == match spec_kc_from_str(#[trigger] t[i]) {
            Some(k) => k,
            None => Kc::No,
        }
}

/// `new` is `old` followed by the numbers the tokens `t` write.
pub open spec fn ints_extend(old: Seq<i32>, new: Seq<i32>, t: Seq<Seq<char>>) -> bool {
    &&& new.len() == old.len() + t.len()
    &&& forall|i: int| 0 <= i < old.len() ==> #[trigger] new[i] == old[i]
    &&& forall|i: int| 0 <= i < t.len() ==> spec_parse_i32(#[trigger] t[i]) == Some(new[old.len() + i])
}

/// `a2` is `acc` with the tokens `t` read into the list of `acc`'s section.
pub open spec fn acc_extends(acc: ModelAcc, a2: ModelAcc, t: Seq<Seq<char>>) -> bool {
    let st = acc.stage;
    let e = Seq::<Seq<char>>::empty();
    &&& a2.stage == st
    &&& a2.layout == acc.layout
    &&& a2.unigram == acc.unigram + if st == ParseStage::UnigramCost { t } else { e }
    &&& a2.bigram == acc.bigram + if st == ParseStage::BigramCost { t } else { e }
    &&& keys_extend(acc.keys, a2.keys, if st == ParseStage::Keys { t } else { e })
    &&& fixed_extend(acc.fixed, a2.fixed, if st == ParseStage::Fixed { t } else { e })
    &&& ints_extend(acc.row, a2.row, if st == ParseStage::Row { t } else { e })
    &&& ints_extend(acc.hand, a2.hand, if st == ParseStage::Hand { t } else { e })
    &&& ints_extend(acc.finger, a2.finger, if st == ParseStage::Finger { t } else { e })
}

proof fn lemma_extends_trans(acc: ModelAcc, a1: ModelAcc, a2: ModelAcc, t1: Seq<Seq<char>>, t2: Seq<Seq<char>>)
    requires
        acc_extends(acc, a1, t1),
        acc_extends(a1, a2, t2),
    ensures
        acc_extends(acc, a2, t1 + t2),
{
    let st = acc.stage;
    let e = Seq::<Seq<char>>::empty();
    assert(e + e =~= e);
    let t = t1 + t2;
    assert(a2.unigram =~= acc.unigram + if st == ParseStage::UnigramCost { t } else { e });
    assert(a2.bigram =~= acc.bigram + if st == ParseStage::BigramCost { t } else { e });
    lemma_keys_trans(acc.keys, a1.keys, a2.keys, if st == ParseStage::Keys { t1 } else { e }, if st == ParseStage::Keys { t2 } else { e });
    lemma_fixed_trans(acc.fixed, a1.fixed, a2.fixed, if st == ParseStage::Fixed { t1 } else { e }, if st == ParseStage::Fixed { t2 } else { e });
    lemma_ints_trans(acc.row, a1.row, a2.row, if st == ParseStage::Row { t1 } else { e }, if st == ParseStage::Row { t2 } else { e });
    lemma_ints_trans(acc.hand, a1.hand, a2.hand, if st == ParseStage::Hand { t1 } else { e }, if st == ParseStage::Hand { t2 } else { e });
    lemma_ints_trans(acc.finger, a1.finger, a2.finger, if st == ParseStage::Finger { t1 } else { e }, if st == ParseStage::Finger { t2 } else { e });
}

proof fn lemma_keys_trans(k0: Seq<Kc>, k1: Seq<Kc>, k2: Seq<Kc>, t1: Seq<Seq<char>>, t2: Seq<Seq<char>>)
    requires
        keys_extend(k0, k1, t1),
        keys_extend(k1, k2, t2),
    ensures
        keys_extend(k0, k2, t1 + t2),
{
    let t = t1 + t2;
    assert forall|i: int| 0 <= i < t.len() implies spec_kc_from_str(#[trigger] t[i]) == Some(k2[k0.len() + i]) by {
        if i < t1.len() {
            assert(t[i] == t1[i]);
            assert(k2[k0.len() + i] == k1[k0.len() + i]);
        } else {
            assert(t[i] == t2[i - t1.len()]);
        }
    }
}

proof fn lemma_fixed_trans(k0: Seq<Kc>, k1: Seq<Kc>, k2: Seq<Kc>, t1: Seq<Seq<char>>, t2: Seq<Seq<char>>)
    requires
        fixed_extend(k0, k1, t1),
        fixed_extend(k1, k2, t2),
    ensures
        fixed_extend(k0, k2, t1 + t2),
{
    let t = t1 + t2;
    assert forall|i: int| 0 <= i < t.len() implies k2[k0.len() + i] == match spec_kc_from_str(#[trigger] t[i]) {
        Some(k) => k,
        None => Kc::No,
    } by {
        if i < t1.len() {
            assert(t[i] == t1[i]);
            assert(k2[k0.len() + i] == k1[k0.len() + i]);
        } else {
            assert(t[i] == t2[i - t1.len()]);
        }
    }
}

proof fn lemma_ints_trans(k0: Seq<i32>, k1: Seq<i32>, k2: Seq<i32>, t1: Seq<Seq<char>>, t2: Seq<Seq<char>>)
    requires
        ints_extend(k0, k1, t1),
        ints_extend(k1, k2, t2),
    ensures
        ints_extend(k0, k2, t1 + t2),
{
    let t = t1 + t2;
    assert forall|i: int| 0 <= i < t.len() implies spec_parse_i32(#[trigger] t[i]) == Some(k2[k0.len() + i]) by {
        if i < t1.len() {
            assert(t[i] == t1[i]);
            assert(k2[k0.len() + i] == k1[k0.len() + i]);
        } else {
            assert(t[i] == t2[i - t1.len()]);
        }
    }
}

/// One token read into a section other than the layout.
proof fn lemma_token_extends(acc: ModelAcc, tok: Seq<char>, a2: ModelAcc)
    requires
        acc.stage != ParseStage::Layout,
        model_token(acc, tok) == Ok::<ModelAcc, IngestErrorView>(a2),
    ensures
        acc_extends(acc, a2, if tok.len() > 0 { seq![tok] } else { Seq::empty() }),
{
    let t = if tok.len() > 0 { seq![tok] } else { Seq::<Seq<char>>::empty() };
    let e = Seq::<Seq<char>>::empty();
    assert(acc.unigram + e =~= acc.unigram);
    assert(acc.bigram + e =~= acc.bigram);
    if tok.len() > 0 {
        assert(t[0] == tok);
        assert(acc.unigram.push(tok) =~= acc.unigram + t);
        assert(acc.bigram.push(tok) =~= acc.bigram + t);
    }
}

/// Reading the first `n` tokens of `toks` into a section other than the layout appends the
/// non-empty ones, in order, to that section's list.
proof fn lemma_tokens_extend(acc: ModelAcc, toks: Seq<Seq<char>>, n: int, a2: ModelAcc)
    requires
        acc.stage != ParseStage::Layout,
        0 <= n <= toks.len(),
        model_tokens(acc, toks, n) == Ok::<ModelAcc, IngestErrorView>(a2),
    ensures
        acc_extends(acc, a2, nonempty_upto(toks, n)),
    decreases n,
{
    let e = Seq::<Seq<char>>::empty();
    if n == 0 {
        assert(acc.unigram + e =~= acc.unigram);
        assert(acc.bigram + e =~= acc.bigram);
    } else {
        let a1 = model_tokens(acc, toks, n - 1)->Ok_0;
        assert(model_tokens(acc, toks, n - 1) is Ok);
        lemma_tokens_extend(acc, toks, n - 1, a1);
        lemma_token_extends(a1, toks[n - 1], a2);
        lemma_extends_trans(acc, a1, a2, nonempty_upto(toks, n - 1), if toks[n - 1].len() > 0 {
            seq![toks[n - 1]]
        } else {
            e
        });
    }
}

/// What the first `n` lines of `ls` have been read into `a`: the section in effect, and each
/// section's list made of the tokens of that section's lines, in reading order.
pub open spec fn lines_read(ls: Seq<Seq<char>>, n: int, a: ModelAcc) -> bool {
    let e = Seq::<Kc>::empty();
    let ei = Seq::<i32>::empty();
    &&& a.stage == section_of(ls, n)
    &&& a.layout == layout_text(ls, n)
    &&& a.unigram == section_tokens(ls, n, ParseStage::UnigramCost)
    &&& a.bigram == section_tokens(ls, n, ParseStage::BigramCost)
    &&& keys_extend(e, a.keys, section_tokens(ls, n, ParseStage::Keys))
    &&& fixed_extend(e, a.fixed, section_tokens(ls, n, ParseStage::Fixed))
    &&& ints_extend(ei, a.row, section_tokens(ls, n, ParseStage::Row))
    &&& ints_extend(ei, a.hand, section_tokens(ls, n, ParseStage::Hand))
    &&& ints_extend(ei, a.finger, section_tokens(ls, n, ParseStage::Finger))
}

proof fn lemma_lines_read(ls: Seq<Seq<char>>, n: int, a: ModelAcc)
    requires
        0 <= n <= ls.len(),
        model_lines(ls, n) == Ok::<ModelAcc, IngestErrorView>(a),
    ensures
        lines_read(ls, n, a),
    decreases n,
{
    let e = Seq::<Kc>::empty();
    let ei = Seq::<i32>::empty();
    let es = Seq::<Seq<char>>::empty();
    if n == 0 {
    } else {
        let a1 = model_lines(ls, n - 1)->Ok_0;
        assert(model_lines(ls, n - 1) is Ok);
        lemma_lines_read(ls, n - 1, a1);
        let line = ls[n - 1];
        let sts = seq![
            ParseStage::UnigramCost,
            ParseStage::BigramCost,
            ParseStage::Keys,
            ParseStage::Fixed,
            ParseStage::Row,
            ParseStage::Hand,
            ParseStage::Finger,
        ];
        if spec_header(line) is Some || a1.stage != ParseStage::Layout {
            assert(layout_text(ls, n - 1) + Seq::<char>::empty() =~= layout_text(ls, n - 1));
        }
        if spec_header(line) is Some || a1.stage == ParseStage::Layout {
            assert forall|st: ParseStage| st != ParseStage::Layout implies #[trigger] section_tokens(ls, n, st)
                == section_tokens(ls, n - 1, st) by {
                assert(section_tokens(ls, n - 1, st) + es =~= section_tokens(ls, n - 1, st));
            }
            assert(section_tokens(ls, n, ParseStage::UnigramCost) == section_tokens(ls, n - 1, ParseStage::UnigramCost));
            assert(section_tokens(ls, n, ParseStage::BigramCost) == section_tokens(ls, n - 1, ParseStage::BigramCost));
            assert(section_tokens(ls, n, ParseStage::Keys) == section_tokens(ls, n - 1, ParseStage::Keys));
            assert(section_tokens(ls, n, ParseStage::Fixed) == section_tokens(ls, n - 1, ParseStage::Fixed));
            assert(section_tokens(ls, n, ParseStage::Row) == section_tokens(ls, n - 1, ParseStage::Row));
            assert(section_tokens(ls, n, ParseStage::Hand) == section_tokens(ls, n - 1, ParseStage::Hand));
            assert(section_tokens(ls, n, ParseStage::Finger) == section_tokens(ls, n - 1, ParseStage::Finger));
        } else {
            let toks = spec_split_ws(line);
            let t = nonempty_upto(toks, toks.len() as int);
            lemma_tokens_extend(a1, toks, toks.len() as int, a);
            let st = a1.stage;
            assert forall|s2: ParseStage| s2 != ParseStage::Layout implies #[trigger] section_tokens(ls, n, s2)
                == section_tokens(ls, n - 1, s2) + if s2 == st { t } else { es } by {
                if s2 != st {
                    assert(section_tokens(ls, n - 1, s2) + es =~= section_tokens(ls, n - 1, s2));
                }
            }
            assert(section_tokens(ls, n, ParseStage::UnigramCost) == section_tokens(ls, n - 1, ParseStage::UnigramCost) + if ParseStage::UnigramCost == st { t } else { es });
            assert(section_tokens(ls, n, ParseStage::BigramCost) == section_tokens(ls, n - 1, ParseStage::BigramCost) + if ParseStage::BigramCost == st { t } else { es });
            assert(section_tokens(ls, n, ParseStage::Keys) == section_tokens(ls, n - 1, ParseStage::Keys) + if ParseStage::Keys == st { t } else { es });
            assert(section_tokens(ls, n, ParseStage::Fixed) == section_tokens(ls, n - 1, ParseStage::Fixed) + if ParseStage::Fixed == st { t } else { es });
            assert(section_tokens(ls, n, ParseStage::Row) == section_tokens(ls, n - 1, ParseStage::Row) + if ParseStage::Row == st { t } else { es });
            assert(section_tokens(ls, n, ParseStage::Hand) == section_tokens(ls, n - 1, ParseStage::Hand) + if ParseStage::Hand == st { t } else { es });
            assert(section_tokens(ls, n, ParseStage::Finger) == section_tokens(ls, n - 1, ParseStage::Finger) + if ParseStage::Finger == st { t } else { es });
            assert(a.unigram =~= section_tokens(ls, n, ParseStage::UnigramCost));
            assert(a.bigram =~= section_tokens(ls, n, ParseStage::BigramCost));
            lemma_keys_trans(e, a1.keys, a.keys, section_tokens(ls, n - 1, ParseStage::Keys), if st == ParseStage::Keys { t } else { es });
            lemma_fixed_trans(e, a1.fixed, a.fixed, section_tokens(ls, n - 1, ParseStage::Fixed), if st == ParseStage::Fixed { t } else { es });
            lemma_ints_trans(ei, a1.row, a.row, section_tokens(ls, n - 1, ParseStage::Row), if st == ParseStage::Row { t } else { es });
            lemma_ints_trans(ei, a1.hand, a.hand, section_tokens(ls, n - 1, ParseStage::Hand), if st == ParseStage::Hand { t } else { es });
            lemma_ints_trans(ei, a1.finger, a.finger, section_tokens(ls, n - 1, ParseStage::Finger), if st == ParseStage::Finger { t } else { es });
        }
    }
}

/// A model configuration that is read gives the lines of its layout section as the layout
/// text, and, for each other section, the tokens of that section's lines in reading order: the unigram and bigram costs exactly those tokens (so the k-th
/// bigram cost is the k-th token of the bigram-cost lines), the keys, fixed keys, rows,
/// hands and fingers one value per token, each the value its token names (an unknown fixed
/// key standing for none). There are then exactly 80 bigram-cost tokens.
pub proof fn law_model_sections(text: Seq<char>)
    requires
        spec_model(text) is Ok,
    ensures
        ({
            let a = spec_model(text)->Ok_0;
            let ls = spec_lines(text);
            let n = ls.len() as int;
            &&& a.layout == layout_text(ls, n)
            &&& a.bigram == section_tokens(ls, n, ParseStage::BigramCost)
            &&& a.bigram.len() == NUM_BIGRAM_COSTS
            &&& a.unigram == section_tokens(ls, n, ParseStage::UnigramCost)
            &&& keys_extend(Seq::empty(), a.keys, section_tokens(ls, n, ParseStage::Keys))
            &&& fixed_extend(Seq::empty(), a.fixed, section_tokens(ls, n, ParseStage::Fixed))
            &&& ints_extend(Seq::empty(), a.row, section_tokens(ls, n, ParseStage::Row))
            &&& ints_extend(Seq::empty(), a.hand, section_tokens(ls, n, ParseStage::Hand))
            &&& ints_extend(Seq::empty(), a.finger, section_tokens(ls, n, ParseStage::Finger))
        }),
{
    let ls = spec_lines(text);
    let a = model_lines(ls, ls.len() as int)->Ok_0;
    assert(model_lines(ls, ls.len() as int) is Ok);
    lemma_lines_read(ls, ls.len() as int, a);
    if a.bigram.len() > NUM_BIGRAM_COSTS {
        lemma_bigram_at_most(ls, ls.len() as int);
    }
}

/// Reading never holds more than 80 bigram costs.
proof fn lemma_bigram_at_most(ls: Seq<Seq<char>>, n: int)
    requires
        0 <= n <= ls.len(),
        model_lines(ls, n) is Ok,
    ensures
        model_lines(ls, n)->Ok_0.bigram.len() <= NUM_BIGRAM_COSTS,
    decreases n,
{
    if n > 0 {
        assert(model_lines(ls, n - 1) is Ok);
        lemma_bigram_at_most(ls, n - 1);
        let a1 = model_lines(ls, n - 1)->Ok_0;
        let line = ls[n - 1];
        if spec_header(line) is None && a1.stage != ParseStage::Layout {
            let toks = spec_split_ws(line);
            lemma_tokens_bigram_at_most(a1, toks, toks.len() as int);
        }
    }
}

proof fn lemma_tokens_bigram_at_most(acc: ModelAcc, toks: Seq<Seq<char>>, n: int)
    requires
        acc.bigram.len() <= NUM_BIGRAM_COSTS,
        model_tokens(acc, toks, n) is Ok,
    ensures
        model_tokens(acc, toks, n)->Ok_0.bigram.len() <= NUM_BIGRAM_COSTS,
    decreases n,
{
    if n > 0 {
        assert(model_tokens(acc, toks, n - 1) is Ok);
        lemma_tokens_bigram_at_most(acc, toks, n - 1);
    }
}

/// Whether non-empty token `tok` can be read in section `st`: a key name in the keys
/// section, an `i32` in the row, hand and finger sections; anything elsewhere.
pub open spec fn token_readable(st: ParseStage, tok: Seq<char>) -> bool {
    match st {
        ParseStage::Keys => spec_kc_from_str(tok) is Some,
        ParseStage::Row | ParseStage::Hand | ParseStage::Finger => spec_parse_i32(tok) is Some,
        _ => true,
    }
}

proof fn lemma_nonempty_prefix(toks: Seq<Seq<char>>, k: int, m: int)
    requires
        0 <= k <= m,
    ensures
        nonempty_upto(toks, k).len() <= nonempty_upto(toks, m).len(),
        forall|i: int| 0 <= i < nonempty_upto(toks, k).len() ==> #[trigger] nonempty_upto(toks, k)[i] == nonempty_upto(
            toks,
            m,
        )[i],
    decreases m,
{
    if k < m {
        lemma_nonempty_prefix(toks, k, m - 1);
    }
}

/// Reading the tokens of a line into a section other than the layout succeeds when each
/// non-empty one can be read there and the bigram costs do not pass 80.
proof fn lemma_tokens_ok(acc: ModelAcc, toks: Seq<Seq<char>>, k: int)
    requires
        acc.stage != ParseStage::Layout,
        0 <= k <= toks.len(),
        forall|i: int|
            0 <= i < nonempty_upto(toks, toks.len() as int).len() ==> token_readable(
                acc.stage,
                #[trigger] nonempty_upto(toks, toks.len() as int)[i],
            ),
        acc.stage == ParseStage::BigramCost ==> acc.bigram.len() + nonempty_upto(toks, toks.len() as int).len()
            <= NUM_BIGRAM_COSTS,
    ensures
        model_tokens(acc, toks, k) is Ok,
    decreases k,
{
    if k > 0 {
        lemma_tokens_ok(acc, toks, k - 1);
        let a1 = model_tokens(acc, toks, k - 1)->Ok_0;
        lemma_tokens_extend(acc, toks, k - 1, a1);
        let tok = toks[k - 1];
        if tok.len() > 0 {
            let t = nonempty_upto(toks, toks.len() as int);
            lemma_nonempty_prefix(toks, k, toks.len() as int);
            let j = nonempty_upto(toks, k - 1).len() as int;
            assert(nonempty_upto(toks, k)[j] == tok);
            assert(t[j] == tok);
            assert(token_readable(acc.stage, t[j]));
        }
    }
}

proof fn lemma_section_prefix(ls: Seq<Seq<char>>, n: int, m: int, st: ParseStage)
    requires
        0 <= n <= m,
    ensures
        section_tokens(ls, n, st).len() <= section_tokens(ls, m, st).len(),
        forall|i: int| 0 <= i < section_tokens(ls, n, st).len() ==> #[trigger] section_tokens(ls, n, st)[i]
            == section_tokens(ls, m, st)[i],
    decreases m,
{
    if n < m {
        lemma_section_prefix(ls, n, m - 1, st);
    }
}

/// Whether every token of section `st` among all the lines `ls` can be read there.
pub open spec fn section_readable(ls: Seq<Seq<char>>, st: ParseStage) -> bool {
    let t = section_tokens(ls, ls.len() as int, st);
    forall|i: int| 0 <= i < t.len() ==> token_readable(st, #[trigger] t[i])
}

proof fn lemma_lines_ok(ls: Seq<Seq<char>>, n: int)
    requires
        0 <= n <= ls.len(),
        section_readable(ls, ParseStage::Keys),
        section_readable(ls, ParseStage::Row),
        section_readable(ls, ParseStage::Hand),
        section_readable(ls, ParseStage::Finger),
        section_tokens(ls, ls.len() as int, ParseStage::BigramCost).len() <= NUM_BIGRAM_COSTS,
    ensures
        model_lines(ls, n) is Ok,
    decreases n,
{
    if n > 0 {
        lemma_lines_ok(ls, n - 1);
        let a1 = model_lines(ls, n - 1)->Ok_0;
        lemma_lines_read(ls, n - 1, a1);
        let line = ls[n - 1];
        if spec_header(line) is None && a1.stage != ParseStage::Layout {
            let toks = spec_split_ws(line);
            let t = nonempty_upto(toks, toks.len() as int);
            let st = a1.stage;
            assert(section_tokens(ls, n, st) == section_tokens(ls, n - 1, st) + t);
            lemma_section_prefix(ls, n, ls.len() as int, st);
            let p = section_tokens(ls, n - 1, st).len() as int;
            assert forall|i: int| 0 <= i < t.len() implies token_readable(st, #[trigger] t[i]) by {
                assert(section_tokens(ls, n, st)[p + i] == t[i]);
                let full = section_tokens(ls, ls.len() as int, st);
                assert(full[p + i] == t[i]);
                if st == ParseStage::Keys || st == ParseStage::Row || st == ParseStage::Hand || st
                    == ParseStage::Finger {
                    assert(token_readable(st, full[p + i]));
                }
            }
            lemma_tokens_ok(a1, toks, toks.len() as int);
        }
    }
}

/// A model configuration is read, rather than refused, exactly when every token of its
/// keys section names a key, every token of its row, hand and finger sections is an `i32`,
/// and its bigram-cost lines hold exactly 80 tokens.
pub proof fn law_model_accepted(text: Seq<char>)
    ensures
        ({
            let ls = spec_lines(text);
            spec_model(text) is Ok <==> {
                &&& section_readable(ls, ParseStage::Keys)
                &&& section_readable(ls, ParseStage::Row)
                &&& section_readable(ls, ParseStage::Hand)
                &&& section_readable(ls, ParseStage::Finger)
                &&& section_tokens(ls, ls.len() as int, ParseStage::BigramCost).len() == NUM_BIGRAM_COSTS
            }
        }),
{
    let ls = spec_lines(text);
    let n = ls.len() as int;
    if spec_model(text) is Ok {
        law_model_sections(text);
        let a = spec_model(text)->Ok_0;
        let e = Seq::<Kc>::empty();
        let tk = section_tokens(ls, n, ParseStage::Keys);
        assert forall|i: int| 0 <= i < tk.len() implies token_readable(ParseStage::Keys, #[trigger] tk[i]) by {
            assert(spec_kc_from_str(tk[i]) == Some(a.keys[e.len() + i]));
        }
        let tr = section_tokens(ls, n, ParseStage::Row);
        assert forall|i: int| 0 <= i < tr.len() implies token_readable(ParseStage::Row, #[trigger] tr[i]) by {
            assert(spec_parse_i32(tr[i]) == Some(a.row[0 + i]));
        }
        let th = section_tokens(ls, n, ParseStage::Hand);
        assert forall|i: int| 0 <= i < th.len() implies token_readable(ParseStage::Hand, #[trigger] th[i]) by {
            assert(spec_parse_i32(th[i]) == Some(a.hand[0 + i]));
        }
        let tf = section_tokens(ls, n, ParseStage::Finger);
        assert forall|i: int| 0 <= i < tf.len() implies token_readable(ParseStage::Finger, #[trigger] tf[i]) by {
            assert(spec_parse_i32(tf[i]) == Some(a.finger[0 + i]));
        }
    } else if section_readable(ls, ParseStage::Keys) && section_readable(ls, ParseStage::Row) && section_readable(
        ls,
        ParseStage::Hand,
    ) && section_readable(ls, ParseStage::Finger) && section_tokens(ls, n, ParseStage::BigramCost).len()
        == NUM_BIGRAM_COSTS {
        lemma_lines_ok(ls, n);
        let a = model_lines(ls, n)->Ok_0;
        lemma_lines_read(ls, n, a);
        assert(false);
    }
}

} // verus!
