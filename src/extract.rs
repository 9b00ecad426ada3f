//! Reading the samples of a document.
use crate::decimal::{decimal_micros, parse_micros};
use crate::document::{descendant_text, derefs, sample_nodes, Node, TcxElement};
use crate::tags::{all_fields, field_paths, Tag, TrkPtField};
use crate::trackpoint::{field_of, with_field, TcxError, Trackpoint};
use vstd::prelude::*;

verus! {

/// The instant that a timestamp text names, in microseconds since
/// 1970-01-01 00:00 UTC, or `None` where the text is not a timestamp.
pub uninterp spec fn timestamp_of(s: Seq<char>) -> Option<i64>;

/// Relies on chrono's `FromStr` for `DateTime<Utc>` (RFC 3339 with a space or
/// `T` between date and time, and a named or numeric offset) and on
/// `DateTime::timestamp_micros`; the outcome depends on the text alone.
#[verifier::external_body]
fn parse_timestamp(s: &str) -> (r: Option<i64>)
    ensures
        r == timestamp_of(s@),
{
    match s.parse::<chrono::DateTime<chrono::Utc>>() {
        Ok(t) => Some(t.timestamp_micros()),
        Err(_) => None,
    }
}

/// Mathematical value of a [`TcxError`].
pub enum ErrorModel {
    MissingRequiredField { sample: usize, tag: Tag },
    MalformedValue { sample: usize, tag: Tag, text: Seq<char> },
    EmptyInput,
    InvalidConfiguration,
    OutOfRange,
}

pub open spec fn error_model(e: TcxError) -> ErrorModel {
    match e {
        TcxError::MissingRequiredField { sample, tag } => ErrorModel::MissingRequiredField {
            sample,
            tag,
        },
        TcxError::MalformedValue { sample, tag, text } => ErrorModel::MalformedValue {
            sample,
            tag,
            text: text@,
        },
        TcxError::EmptyInput => ErrorModel::EmptyInput,
        TcxError::InvalidConfiguration => ErrorModel::InvalidConfiguration,
        TcxError::OutOfRange => ErrorModel::OutOfRange,
    }
}

/// The first of `paths`, from position `i` on, that is present under `n`:
/// its text and its last tag.
pub open spec fn resolve_from(n: Node, paths: Seq<Seq<Tag>>, i: int) -> Option<(Seq<char>, Tag)>
    decreases paths.len() - i,
{
    if i < 0 || i >= paths.len() {
        None
    } else {
        match descendant_text(n, paths[i]) {
            Some(t) => Some((t, paths[i].last())),
            None => resolve_from(n, paths, i + 1),
        }
    }
}

/// The value of field `f` in sample node `n`: absent where none of its paths
/// is present, else the text of the first present path read as a decimal; a
/// text that is no decimal is reported with the path's last tag.
pub open spec fn field_value(n: Node, f: TrkPtField) -> Result<Option<i64>, (Tag, Seq<char>)> {
    match resolve_from(n, field_paths(f), 0) {
        None => Ok(None),
        Some((t, tag)) => match decimal_micros(t) {
            Some(v) => Ok(Some(v)),
            None => Err((tag, t)),
        },
    }
}

/// Fills the fields from the `k`-th on, in declaration order; the first
/// malformed one fails.
pub open spec fn fields_from(n: Node, p: Trackpoint, k: nat) -> Result<Trackpoint, (Tag, Seq<char>)>
    decreases 8 - k,
{
    if k >= 8 {
        Ok(p)
    } else {
        match field_value(n, all_fields()[k as int]) {
            Ok(v) => fields_from(n, with_field(p, all_fields()[k as int], v), k + 1),
            Err(e) => Err(e),
        }
    }
}

pub open spec fn empty_point(time: i64) -> Trackpoint {
    Trackpoint {
        time,
        latitude: None,
        longitude: None,
        altitude: None,
        distance: None,
        heartrate: None,
        cadence: None,
        speed: None,
        power: None,
    }
}

/// What reading sample node `n`, at position `sample`, gives.
pub open spec fn parse_spec(n: Node, sample: usize) -> Result<Trackpoint, ErrorModel> {
    match descendant_text(n, seq![Tag::Time]) {
        None => Err(ErrorModel::MissingRequiredField { sample, tag: Tag::Time }),
        Some(t) => match timestamp_of(t) {
            None => Err(ErrorModel::MalformedValue { sample, tag: Tag::Time, text: t }),
            Some(time) => match fields_from(n, empty_point(time), 0) {
                Ok(p) => Ok(p),
                Err((tag, text)) => Err(ErrorModel::MalformedValue { sample, tag, text }),
            },
        },
    }
}

/// Reading the first `k` sample nodes; the first failure wins.
pub open spec fn parse_prefix(nodes: Seq<Node>, k: nat) -> Result<Seq<Trackpoint>, ErrorModel>
    decreases k,
{
    if k == 0 {
        Ok(Seq::empty())
    } else {
        match parse_prefix(nodes, (k - 1) as nat) {
            Err(e) => Err(e),
            Ok(ps) => match parse_spec(nodes[k - 1], (k - 1) as usize) {
                Ok(p) => Ok(ps.push(p)),
                Err(e) => Err(e),
            },
        }
    }
}

/// Reading every sample of a document.
pub open spec fn parse_all(root: Node) -> Result<Seq<Trackpoint>, ErrorModel> {
    parse_prefix(sample_nodes(root), sample_nodes(root).len())
}

/// `s` without the elements equal to their predecessor.
pub open spec fn dedup_spec(s: Seq<Trackpoint>) -> Seq<Trackpoint>
    decreases s.len(),
{
    if s.len() <= 1 {
        s
    } else if s.last() == s[s.len() - 2] {
        dedup_spec(s.drop_last())
    } else {
        dedup_spec(s.drop_last()).push(s.last())
    }
}

/// The elements of `s` whose entry in `keep` is set, in order.
pub open spec fn kept(s: Seq<Trackpoint>, keep: Seq<bool>) -> Seq<Trackpoint>
    decreases s.len(),
{
    if s.len() == 0 || keep.len() == 0 {
        Seq::empty()
    } else if keep.last() {
        kept(s.drop_last(), keep.drop_last()).push(s.last())
    } else {
        kept(s.drop_last(), keep.drop_last())
    }
}

proof fn lemma_paths_nonempty(f: TrkPtField, i: int)
    requires
        0 <= i < field_paths(f).len(),
    ensures
        field_paths(f)[i].len() > 0,
{
}

/// The value of field `f` in sample node `n` (see [`field_value`]).
fn field_value_exec(n: &Node, f: TrkPtField) -> (r: Result<Option<i64>, (Tag, String)>)
    ensures
        match r {
            Ok(v) => field_value(*n, f) == Ok::<Option<i64>, (Tag, Seq<char>)>(v),
            Err((tag, t)) => field_value(*n, f) == Err::<Option<i64>, (Tag, Seq<char>)>(
                (tag, t@),
            ),
        },
{
    let paths = f.get_tags();
    let mut j: usize = 0;
    while j < paths.len()
        invariant
            j <= paths@.len(),
            paths@.len() == field_paths(f).len(),
            forall|i: int| 0 <= i < paths@.len() ==> #[trigger] paths@[i]@ == field_paths(f)[i],
            resolve_from(*n, field_paths(f), 0) == resolve_from(*n, field_paths(f), j as int),
        decreases paths@.len() - j,
    {
        assert(paths@[j as int]@ == field_paths(f)[j as int]);
        match n.child_value(paths[j]) {
            Some(text) => {
                proof {
                    lemma_paths_nonempty(f, j as int);
                }
                let last = paths[j].len() - 1;
                let tag = paths[j][last];
                return match parse_micros(text.as_str()) {
                    Some(v) => Ok(Some(v)),
                    None => Err((tag, text)),
                };
            },
            None => {},
        }
        j = j + 1;
    }
    Ok(None)
}

impl Trackpoint {
    /// Reads one sample node; `sample` is its position, which errors report.
    ///
    /// The time is required; each other field takes the first of its paths
    /// that is present (see [`crate::tags::TrkPtField::get_tags`]).
    pub fn parse(trackpoint: &Node, sample: usize) -> (r: Result<Trackpoint, TcxError>)
        ensures
            match r {
                Ok(p) => parse_spec(*trackpoint, sample) == Ok::<Trackpoint, ErrorModel>(p),
                Err(e) => parse_spec(*trackpoint, sample) == Err::<Trackpoint, ErrorModel>(
                    error_model(e),
                ),
            },
    {
        let time_path = [Tag::Time];
        assert(time_path@ =~= seq![Tag::Time]);
        let time_text = match trackpoint.child_value(&time_path) {
            Some(t) => t,
            None => {
                return Err(TcxError::MissingRequiredField { sample, tag: Tag::Time });
            },
        };
        let time = match parse_timestamp(time_text.as_str()) {
            Some(t) => t,
            None => {
                return Err(TcxError::MalformedValue { sample, tag: Tag::Time, text: time_text });
            },
        };
        let mut point = Trackpoint {
            time,
            latitude: None,
            longitude: None,
            altitude: None,
            distance: None,
            heartrate: None,
            cadence: None,
            speed: None,
            power: None,
        };
        let fields = TrkPtField::all();
        let mut k: usize = 0;
        while k < fields.len()
            invariant
                fields@ == all_fields(),
                k <= 8,
                descendant_text(*trackpoint, seq![Tag::Time]) == Some(time_text@),
                timestamp_of(time_text@) == Some(time),
                fields_from(*trackpoint, empty_point(time), 0) == fields_from(
                    *trackpoint,
                    point,
                    k as nat,
                ),
            decreases 8 - k,
        {
            match field_value_exec(trackpoint, fields[k]) {
                Ok(v) => {
                    let slot = point.index_mut(&fields[k]);
                    *slot = v;
                },
                Err((tag, text)) => {
                    return Err(TcxError::MalformedValue { sample, tag, text });
                },
            }
            k = k + 1;
        }
        Ok(point)
    }

    /// Reads every sample of a document, in document order (see
    /// [`parse_all`]).
    pub fn parse_all(tcx: &Node) -> (r: Result<Vec<Trackpoint>, TcxError>)
        ensures
            match r {
                Ok(ps) => parse_all(*tcx) == Ok::<Seq<Trackpoint>, ErrorModel>(ps@),
                Err(e) => parse_all(*tcx) == Err::<Seq<Trackpoint>, ErrorModel>(error_model(e)),
            },
    {
        let roots: Vec<&Node> = vec![tcx];
        assert(derefs(roots@) =~= seq![*tcx]);
        let activities = Node::select(&roots, Tag::Activities);
        let activity = Node::select(&activities, Tag::Activity);
        let laps = Node::select(&activity, Tag::Lap);
        let tracks = Node::select(&laps, Tag::Track);
        let nodes = Node::select(&tracks, Tag::Trackpoint);
        let ghost all = sample_nodes(*tcx);
        assert(derefs(nodes@) == all);
        assert(all.len() == nodes@.len());
        let mut points: Vec<Trackpoint> = Vec::new();
        let mut k: usize = 0;
        while k < nodes.len()
            invariant
                k <= nodes@.len(),
                derefs(nodes@) == all,
                all == sample_nodes(*tcx),
                all.len() == nodes@.len(),
                parse_prefix(all, k as nat) == Ok::<Seq<Trackpoint>, ErrorModel>(points@),
            decreases nodes@.len() - k,
        {
            assert(all[k as int] == *nodes@[k as int]);
            match Trackpoint::parse(nodes[k], k) {
                Ok(p) => {
                    points.push(p);
                },
                Err(e) => {
                    proof {
                        assert(parse_prefix(all, (k + 1) as nat) == Err::<
                            Seq<Trackpoint>,
                            ErrorModel,
                        >(error_model(e)));
                        lemma_parse_prefix_err(all, (k + 1) as nat, all.len());
                    }
                    return Err(e);
                },
            }
            k = k + 1;
        }
        Ok(points)
    }

    /// Reads the samples of a document that `filter` accepts, and drops every
    /// one equal to its predecessor.
    pub fn from_tcx<F: Fn(&Trackpoint) -> bool>(tcx: &Node, filter: F) -> (r: Result<
        Vec<Trackpoint>,
        TcxError,
    >)
        requires
            forall|p: &Trackpoint| #[trigger] filter.requires((p,)),
        ensures
            match r {
                Ok(ps) => parse_all(*tcx) is Ok && exists|keep: Seq<bool>|
                    #![trigger kept(parse_all(*tcx)->Ok_0, keep)]
                    keep.len() == (parse_all(*tcx)->Ok_0).len() && (forall|i: int|
                        0 <= i < keep.len() ==> filter.ensures(
                            (&(parse_all(*tcx)->Ok_0)[i],),
                            #[trigger] keep[i],
                        )) && ps@ == dedup_spec(kept(parse_all(*tcx)->Ok_0, keep)),
                Err(e) => parse_all(*tcx) == Err::<Seq<Trackpoint>, ErrorModel>(error_model(e)),
            },
    {
        let points = match Trackpoint::parse_all(tcx) {
            Ok(ps) => ps,
            Err(e) => {
                return Err(e);
            },
        };
        let mut chosen: Vec<Trackpoint> = Vec::new();
        let ghost mut keep: Seq<bool> = Seq::empty();
        let mut i: usize = 0;
        while i < points.len()
            invariant
                i <= points@.len(),
                keep.len() == i,
                forall|p: &Trackpoint| #[trigger] filter.requires((p,)),
                forall|j: int| 0 <= j < i ==> filter.ensures((&points@[j],), #[trigger] keep[j]),
                chosen@ == kept(points@.subrange(0, i as int), keep),
            decreases points@.len() - i,
        {
            let take = filter(&points[i]);
            proof {
                let s = points@.subrange(0, i + 1);
                assert(s.drop_last() =~= points@.subrange(0, i as int));
                assert(keep.push(take).drop_last() =~= keep);
            }
            if take {
                chosen.push(points[i]);
            }
            proof {
                keep = keep.push(take);
            }
            i = i + 1;
        }
        assert(points@.subrange(0, points@.len() as int) =~= points@);
        assert(chosen@ == kept(parse_all(*tcx)->Ok_0, keep));
        let r = dedup(chosen);
        assert(r@ == dedup_spec(kept(parse_all(*tcx)->Ok_0, keep)));
        Ok(r)
    }
}

proof fn lemma_parse_prefix_err(nodes: Seq<Node>, k: nat, n: nat)
    requires
        k <= n,
        parse_prefix(nodes, k) is Err,
    ensures
        parse_prefix(nodes, n) == parse_prefix(nodes, k),
    decreases n - k,
{
    if k < n {
        lemma_parse_prefix_err(nodes, k, (n - 1) as nat);
    }
}

/// Drops every element equal to its predecessor (see [`dedup_spec`]).
pub fn dedup(points: Vec<Trackpoint>) -> (r: Vec<Trackpoint>)
    ensures
        r@ == dedup_spec(points@),
{
    let mut out: Vec<Trackpoint> = Vec::new();
    let mut i: usize = 0;
    while i < points.len()
        invariant
            i <= points@.len(),
            out@ == dedup_spec(points@.subrange(0, i as int)),
        decreases points@.len() - i,
    {
        proof {
            let s = points@.subrange(0, i + 1);
            assert(s.drop_last() =~= points@.subrange(0, i as int));
        }
        if i == 0 || points[i] != points[i - 1] {
            out.push(points[i]);
        }
        i = i + 1;
    }
    assert(points@.subrange(0, points@.len() as int) =~= points@);
    out
}

/// Whether no element of `s` equals its successor.
pub open spec fn no_adjacent_duplicates(s: Seq<Trackpoint>) -> bool {
    forall|i: int| 0 <= i < s.len() - 1 ==> #[trigger] s[i] != s[i + 1]
}

proof fn lemma_dedup_shape(s: Seq<Trackpoint>)
    ensures
        no_adjacent_duplicates(dedup_spec(s)),
        dedup_spec(s).len() <= s.len(),
        s.len() > 0 ==> dedup_spec(s).len() > 0 && dedup_spec(s).last() == s.last(),
    decreases s.len(),
{
    if s.len() > 1 {
        lemma_dedup_shape(s.drop_last());
        let d = dedup_spec(s.drop_last());
        if s.last() != s[s.len() - 2] {
            let r = d.push(s.last());
            assert forall|i: int| 0 <= i < r.len() - 1 implies #[trigger] r[i] != r[i + 1] by {
                if i < d.len() - 1 {
                    assert(r[i] == d[i] && r[i + 1] == d[i + 1]);
                } else {
                    assert(r[i] == d.last());
                    assert(d.last() == s.drop_last().last());
                }
            }
        }
    }
}

/// Deduplication removes consecutive duplicates and nothing else: what it
/// returns has no element equal to its successor, and a sequence without
/// such elements comes back unchanged, so that deduplicating twice gives
/// the same as once.
pub proof fn lemma_dedup_exact(s: Seq<Trackpoint>)
    ensures
        no_adjacent_duplicates(dedup_spec(s)),
        no_adjacent_duplicates(s) ==> dedup_spec(s) == s,
        dedup_spec(dedup_spec(s)) == dedup_spec(s),
{
    lemma_dedup_shape(s);
    lemma_dedup_identity(s);
    lemma_dedup_identity(dedup_spec(s));
}

proof fn lemma_dedup_identity(s: Seq<Trackpoint>)
    ensures
        no_adjacent_duplicates(s) ==> dedup_spec(s) == s,
    decreases s.len(),
{
    if s.len() > 1 && no_adjacent_duplicates(s) {
        let t = s.drop_last();
        assert forall|i: int| 0 <= i < t.len() - 1 implies #[trigger] t[i] != t[i + 1] by {
            assert(s[i] != s[i + 1]);
        }
        lemma_dedup_identity(t);
        assert(s[s.len() - 2] != s[s.len() - 1]);
        assert(t.push(s.last()) =~= s);
    }
}

pub open spec fn field_index(f: TrkPtField) -> int {
    match f {
        TrkPtField::Latitude => 0,
        TrkPtField::Longitude => 1,
        TrkPtField::Altitude => 2,
        TrkPtField::Distance => 3,
        TrkPtField::Heartrate => 4,
        TrkPtField::Cadence => 5,
        TrkPtField::Speed => 6,
        TrkPtField::Power => 7,
    }
}

proof fn lemma_all_fields_index(k: int)
    requires
        0 <= k < 8,
    ensures
        field_index(all_fields()[k]) == k,
{
}

proof fn lemma_with_field(p: Trackpoint, g: TrkPtField, v: Option<i64>, f: TrkPtField)
    ensures
        field_of(with_field(p, g, v), f) == if f == g {
            v
        } else {
            field_of(p, f)
        },
{
}

proof fn lemma_fields_from(n: Node, p: Trackpoint, k: nat, f: TrkPtField)
    requires
        k <= 8,
        fields_from(n, p, k) is Ok,
    ensures
        field_index(f) >= k ==> field_value(n, f) is Ok && field_of(fields_from(n, p, k)->Ok_0, f)
            == field_value(n, f)->Ok_0,
        field_index(f) < k ==> field_of(fields_from(n, p, k)->Ok_0, f) == field_of(p, f),
    decreases 8 - k,
{
    if k < 8 {
        let g = all_fields()[k as int];
        lemma_all_fields_index(k as int);
        let v = field_value(n, g)->Ok_0;
        lemma_with_field(p, g, v, f);
        lemma_fields_from(n, with_field(p, g, v), k + 1, f);
    }
}

/// Where the first path of a field is present in a sample, the field takes
/// that path's value, whatever its other paths hold.
pub proof fn lemma_primary_path_wins(n: Node, sample: usize, f: TrkPtField, t: Seq<char>)
    requires
        parse_spec(n, sample) is Ok,
        descendant_text(n, field_paths(f)[0]) == Some(t),
    ensures
        decimal_micros(t) is Some,
        field_of(parse_spec(n, sample)->Ok_0, f) == decimal_micros(t),
{
    let time = timestamp_of(descendant_text(n, seq![Tag::Time])->0)->0;
    lemma_fields_from(n, empty_point(time), 0, f);
    assert(resolve_from(n, field_paths(f), 0) == Some((t, field_paths(f)[0].last())));
}

} // verus!
