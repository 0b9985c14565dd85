//! Trade search queries and the decisions around fetching their results: how long
//! to wait, how to batch item ids, what to do with a response status.
use vstd::prelude::*;
use vstd::string::*;
use crate::stat_requirements::CoreAttribute;

verus! {

/// Relies on `rand::rngs::OsRng::try_fill_bytes`: eight bytes from the operating
/// system's source, or `None` when that source fails; nothing is promised of the
/// value drawn.
#[verifier::external_body]
fn draw_u64() -> (r: Option<u64>) {
    let mut bytes = [0u8; 8];
    match rand::RngCore::try_fill_bytes(&mut rand::rngs::OsRng, &mut bytes) {
        Ok(()) => Some(u64::from_le_bytes(bytes)),
        Err(_) => None,
    }
}

/// The ids a search found, how many matched in all, and the search's id.
#[derive(Debug, Clone)]
pub struct SearchResponse {
    result: Vec<String>,
    total: u32,
    id: Option<String>,
}

impl SearchResponse {
    pub fn new(result: Vec<String>, total: u32, id: Option<String>) -> (r: Self)
        ensures
            r.spec_result() == result@,
            r.spec_total() == total,
    {
        SearchResponse { result, total, id }
    }

    pub closed spec fn spec_result(&self) -> Seq<String> {
        self.result@
    }

    pub closed spec fn spec_total(&self) -> u32 {
        self.total
    }

    pub fn get_result_ids(&self) -> (r: &[String])
        ensures
            r@ == self.spec_result(),
    {
        self.result.as_slice()
    }

    pub fn total(&self) -> (r: u32)
        ensures
            r == self.spec_total(),
    {
        self.total
    }
}

#[derive(Debug, Clone, Copy, PartialEq, Eq, Structural)]
pub enum TradeStatus {
    Online,
    OnlineLeague,
    Any,
}

pub open spec fn status_text(s: TradeStatus) -> Seq<char> {
    match s {
        TradeStatus::Online => "online"@,
        TradeStatus::OnlineLeague => "onlineleague"@,
        TradeStatus::Any => "any"@,
    }
}

impl TradeStatus {
    pub fn as_str(&self) -> (r: &'static str)
        ensures
            r@ == status_text(*self),
    {
        match self {
            TradeStatus::Online => "online",
            TradeStatus::OnlineLeague => "onlineleague",
            TradeStatus::Any => "any",
        }
    }
}

#[derive(Debug, Clone)]
pub struct StatusFilter {
    pub option: String,
}

#[derive(Debug, Clone, Copy)]
pub struct StatValue {
    pub min: Option<u32>,
    pub max: Option<u32>,
}

#[derive(Debug, Clone)]
pub struct StatFilterValue {
    pub id: String,
    pub value: Option<StatValue>,
    pub disabled: bool,
}

#[derive(Debug, Clone)]
pub struct StatFilter {
    pub filter_type: String,
    pub filters: Vec<StatFilterValue>,
    pub disabled: bool,
}

#[derive(Debug, Clone)]
pub struct CategoryOption {
    pub option: String,
}

#[derive(Debug, Clone)]
pub struct CategoryFilter {
    pub category: CategoryOption,
}

#[derive(Debug, Clone)]
pub struct TypeFilters {
    pub filters: CategoryFilter,
}

#[derive(Debug, Clone)]
pub struct QueryFilters {
    pub type_filters: TypeFilters,
}

#[derive(Debug, Clone)]
pub struct TradeQuery {
    pub status: StatusFilter,
    pub stats: Vec<StatFilter>,
    pub filters: QueryFilters,
}

/// How results are ordered: by `field`, in `direction`.
#[derive(Debug, Clone)]
pub struct SortOrder {
    pub field: String,
    pub direction: String,
}

#[derive(Debug, Clone)]
pub struct SearchRequest {
    pub query: TradeQuery,
    pub sort: Option<SortOrder>,
}

/// `r` asks for items of `status` in `category`, cheapest first, under one `and`
/// group holding `filters`.
pub open spec fn is_query(r: SearchRequest, status: Seq<char>, category: Seq<char>, filters: Seq<StatFilterValue>) -> bool {
    &&& r.query.status.option@ == status
    &&& r.query.stats@.len() == 1
    &&& r.query.stats@[0].filter_type@ == "and"@
    &&& r.query.stats@[0].filters@ == filters
    &&& !r.query.stats@[0].disabled
    &&& r.query.filters.type_filters.filters.category.option@ == category
    &&& r.sort matches Some(s) && s.field@ == "price"@ && s.direction@ == "asc"@
}

fn query(status: &str, category: &str, filters: Vec<StatFilterValue>) -> (r: SearchRequest)
    ensures
        is_query(r, status@, category@, filters@),
{
    let mut stats: Vec<StatFilter> = Vec::new();
    stats.push(StatFilter { filter_type: String::from_str("and"), filters, disabled: false });
    SearchRequest {
        query: TradeQuery {
            status: StatusFilter { option: String::from_str(status) },
            stats,
            filters: QueryFilters {
                type_filters: TypeFilters { filters: CategoryFilter { category: CategoryOption { option: String::from_str(category) } } },
            },
        },
        sort: Some(SortOrder { field: String::from_str("price"), direction: String::from_str("asc") }),
    }
}

/// Items of any category with the given status, cheapest first.
pub fn build_basic_query(status: TradeStatus) -> (r: SearchRequest)
    ensures
        is_query(r, status_text(status), "any"@, Seq::empty()),
{
    query(status.as_str(), "any", Vec::new())
}

/// Jewels with the given status, cheapest first.
pub fn build_jewel_query(status: TradeStatus) -> (r: SearchRequest)
    ensures
        is_query(r, status_text(status), "jewel"@, Seq::empty()),
{
    query(status.as_str(), "jewel", Vec::new())
}

/// The stat that adds to an attribute.
pub open spec fn attribute_stat_id(a: CoreAttribute) -> Seq<char> {
    match a {
        CoreAttribute::Strength => "explicit.stat_3299347043"@,
        CoreAttribute::Dexterity => "explicit.stat_1284417561"@,
        CoreAttribute::Intelligence => "explicit.stat_4220027924"@,
    }
}

/// Online armour whose bonus to `attr` lies between `min` and `max`, cheapest first.
pub fn build_attribute_query(attr: CoreAttribute, min: u32, max: u32) -> (r: SearchRequest)
    ensures
        is_query(r, "online"@, "armour"@, r.query.stats@[0].filters@),
        r.query.stats@[0].filters@.len() == 1,
        r.query.stats@[0].filters@[0].id@ == attribute_stat_id(attr),
        r.query.stats@[0].filters@[0].value == Some(StatValue { min: Some(min), max: Some(max) }),
        !r.query.stats@[0].filters@[0].disabled,
{
    let id = match attr {
        CoreAttribute::Strength => "explicit.stat_3299347043",
        CoreAttribute::Dexterity => "explicit.stat_1284417561",
        CoreAttribute::Intelligence => "explicit.stat_4220027924",
    };
    let mut filters: Vec<StatFilterValue> = Vec::new();
    filters.push(StatFilterValue { id: String::from_str(id), value: Some(StatValue { min: Some(min), max: Some(max) }), disabled: false });
    query("online", "armour", filters)
}

/// Attribute bands that data collection searches, in order.
pub fn threshold_ranges() -> (r: Vec<(u32, u32)>)
    ensures
        r@ == seq![(0u32, 50u32), (51u32, 100u32), (101u32, 150u32), (151u32, 200u32)],
{
    let mut r: Vec<(u32, u32)> = Vec::new();
    r.push((0, 50));
    r.push((51, 100));
    r.push((101, 150));
    r.push((151, 200));
    assert(r@ =~= seq![(0u32, 50u32), (51u32, 100u32), (101u32, 150u32), (151u32, 200u32)]);
    r
}

/// The pause before a fetch, in milliseconds, for a drawn value: half a second
/// and up to a tenth more.
pub fn fetch_delay_ms(drawn: u64) -> (r: u64)
    ensures
        r == 500 + drawn % 100,
{
    500 + drawn % 100
}

/// The pause before a fetch, drawn at random; `None` when no random value could
/// be drawn.
pub fn random_fetch_delay_ms() -> (r: Option<u64>)
    ensures
        r matches Some(d) ==> 500 <= d < 600,
{
    match draw_u64() {
        Some(drawn) => Some(fetch_delay_ms(drawn)),
        None => None,
    }
}

/// How much of `delay_ms` is left after `elapsed_ms`.
pub fn remaining_wait_ms(elapsed_ms: u64, delay_ms: u64) -> (r: u64)
    ensures
        r == if elapsed_ms < delay_ms { delay_ms - elapsed_ms } else { 0 },
{
    if elapsed_ms < delay_ms {
        delay_ms - elapsed_ms
    } else {
        0
    }
}

/// The status a rate-limited request is answered with.
pub const TOO_MANY_REQUESTS: u16 = 429;

/// What to do with a fetch response.
#[derive(Debug, Clone, Copy, PartialEq, Eq, Structural)]
pub enum FetchOutcome {
    /// Rate limited: wait, then go on with the next batch.
    WaitAndSkip,
    /// Read the items of the body.
    Parse,
    /// Neither: go on with the next batch.
    Ignore,
}

pub fn fetch_outcome(status: u16) -> (r: FetchOutcome)
    ensures
        r == if status == TOO_MANY_REQUESTS {
            FetchOutcome::WaitAndSkip
        } else if 200 <= status < 300 {
            FetchOutcome::Parse
        } else {
            FetchOutcome::Ignore
        },
{
    if status == TOO_MANY_REQUESTS {
        FetchOutcome::WaitAndSkip
    } else if 200 <= status && status < 300 {
        FetchOutcome::Parse
    } else {
        FetchOutcome::Ignore
    }
}

/// The texts joined by commas.
pub open spec fn comma_joined(s: Seq<Seq<char>>) -> Seq<char>
    decreases s.len(),
{
    if s.len() == 0 {
        Seq::empty()
    } else if s.len() == 1 {
        s[0]
    } else {
        comma_joined(s.drop_last()) + ","@ + s.last()
    }
}

pub open spec fn views_of(v: Seq<String>) -> Seq<Seq<char>> {
    v.map_values(|s: String| s@)
}

/// Joins `ids[from..to]` with commas.
pub fn join_ids(ids: &[String], from: usize, to: usize) -> (r: String)
    requires
        from <= to <= ids@.len(),
    ensures
        r@ == comma_joined(views_of(ids@.subrange(from as int, to as int))),
{
    let mut r = String::new();
    let mut i: usize = from;
    while i < to
        invariant
            from <= i <= to <= ids@.len(),
            r@ == comma_joined(views_of(ids@.subrange(from as int, i as int))),
        decreases to - i,
    {
        let ghost next = views_of(ids@.subrange(from as int, i as int + 1));
        assert(next.drop_last() =~= views_of(ids@.subrange(from as int, i as int)));
        assert(next.last() == ids@[i as int]@);
        if i > from {
            r.append(",");
        }
        r.append(ids[i].as_str());
        i = i + 1;
    }
    r
}

/// How many ids one fetch asks for.
pub const FETCH_BATCH: usize = 10;

/// The ids in batches of ten, the last holding the rest, each joined by commas.
pub fn id_batches(ids: &[String]) -> (r: Vec<String>)
    ensures
        r@.len() == (ids@.len() + 9) / 10,
        forall|k: int| 0 <= k < r@.len() ==> (#[trigger] r@[k])@ == comma_joined(
            views_of(ids@.subrange(10 * k, if 10 * k + 10 < ids@.len() { 10 * k + 10 } else { ids@.len() as int })),
        ),
{
    let mut r: Vec<String> = Vec::new();
    let mut from: usize = 0;
    while from < ids.len()
        invariant
            from <= ids@.len(),
            from == 10 * r@.len() || (from == ids@.len() && 10 * r@.len() >= ids@.len() && 10 * (r@.len() - 1) < ids@.len()),
            forall|k: int| 0 <= k < r@.len() ==> (#[trigger] r@[k])@ == comma_joined(
                views_of(ids@.subrange(10 * k, if 10 * k + 10 < ids@.len() { 10 * k + 10 } else { ids@.len() as int })),
            ),
        decreases ids@.len() - from,
    {
        let to = if ids.len() - from > FETCH_BATCH {
            from + FETCH_BATCH
        } else {
            ids.len()
        };
        r.push(join_ids(ids, from, to));
        from = to;
    }
    assert(r@.len() == (ids@.len() + 9) / 10) by (nonlinear_arith)
        requires
            from == ids@.len(),
            from == 10 * r@.len() || (10 * r@.len() >= ids@.len() && 10 * (r@.len() - 1) < ids@.len()),
    ;
    r
}

} // verus!
