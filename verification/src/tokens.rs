//! Token usage of the AI calls: the log of calls (the latest 500) and the
//! report made from it.
use vstd::prelude::*;

verus! {

/// One AI call and the tokens it used.
pub struct TokenRecord {
    pub timestamp: String,
    pub operation: String,
    pub prompt_tokens: u32,
    pub completion_tokens: u32,
    pub total_tokens: u32,
}

impl Clone for TokenRecord {
    fn clone(&self) -> (r: Self)
        ensures
            r == *self,
    {
        TokenRecord {
            timestamp: self.timestamp.clone(),
            operation: self.operation.clone(),
            prompt_tokens: self.prompt_tokens,
            completion_tokens: self.completion_tokens,
            total_tokens: self.total_tokens,
        }
    }
}

/// The calls of one operation: how many, and their tokens.
pub struct OperationUsage {
    pub operation: String,
    pub count: u32,
    pub total_tokens: u32,
}

/// Totals over the log, the usage by operation (most tokens first) and the
/// 20 latest calls, latest first.
pub struct TokenReport {
    pub total_prompt_tokens: u32,
    pub total_completion_tokens: u32,
    pub total_tokens: u32,
    pub by_operation: Vec<OperationUsage>,
    pub recent: Vec<TokenRecord>,
}

/// The most calls the log keeps.
pub open spec fn log_limit() -> nat {
    500
}

/// The last `n` elements of `s` (all of it when shorter).
pub open spec fn last_n<A>(s: Seq<A>, n: nat) -> Seq<A> {
    if s.len() > n {
        s.skip(s.len() - n)
    } else {
        s
    }
}

/// A record of a call made at `timestamp`: its total is the sum of its parts.
pub open spec fn call_record(r: TokenRecord, timestamp: Seq<char>, operation: Seq<char>, prompt: u32, completion: u32) -> bool {
    &&& r.timestamp@ == timestamp
    &&& r.operation@ == operation
    &&& r.prompt_tokens == prompt
    &&& r.completion_tokens == completion
    &&& r.total_tokens == prompt + completion
}

/// Logs a call: the record goes last, and only the latest 500 are kept.
pub fn record_usage(
    records: &mut Vec<TokenRecord>,
    timestamp: &str,
    operation: &str,
    prompt_tokens: u32,
    completion_tokens: u32,
)
    requires
        prompt_tokens + completion_tokens <= u32::MAX,
    ensures
        final(records)@.len() > 0,
        call_record(final(records)@.last(), timestamp@, operation@, prompt_tokens, completion_tokens),
        final(records)@.drop_last() == last_n(old(records)@, (log_limit() - 1) as nat),
        final(records)@.len() == if old(records)@.len() + 1 > log_limit() { log_limit() } else { old(records)@.len() + 1 },
{
    let record = TokenRecord {
        timestamp: String::from_str(timestamp),
        operation: String::from_str(operation),
        prompt_tokens,
        completion_tokens,
        total_tokens: prompt_tokens + completion_tokens,
    };
    records.push(record);
    if records.len() > 500 {
        let at = records.len() - 500;
        let kept = records.split_off(at);
        *records = kept;
        proof {
            let all = old(records)@.push(record);
            assert(records@ == all.skip(at as int));
            assert(records@.drop_last() == old(records)@.skip(old(records)@.len() - 499));
        }
    }
}

/// The sum of a number over the records.
pub open spec fn field_sum(s: Seq<TokenRecord>, f: spec_fn(TokenRecord) -> nat) -> nat
    decreases s.len(),
{
    if s.len() == 0 {
        0
    } else {
        field_sum(s.drop_last(), f) + f(s.last())
    }
}

pub open spec fn prompt_field() -> spec_fn(TokenRecord) -> nat {
    |r: TokenRecord| r.prompt_tokens as nat
}

pub open spec fn completion_field() -> spec_fn(TokenRecord) -> nat {
    |r: TokenRecord| r.completion_tokens as nat
}

pub open spec fn total_field() -> spec_fn(TokenRecord) -> nat {
    |r: TokenRecord| r.total_tokens as nat
}

/// 1 for each call of the operation.
pub open spec fn count_field(op: Seq<char>) -> spec_fn(TokenRecord) -> nat {
    |r: TokenRecord| if r.operation@ == op { 1nat } else { 0nat }
}

/// The tokens of each call of the operation.
pub open spec fn op_tokens_field(op: Seq<char>) -> spec_fn(TokenRecord) -> nat {
    |r: TokenRecord| if r.operation@ == op { r.total_tokens as nat } else { 0nat }
}

pub proof fn lemma_field_sum_prefix(s: Seq<TokenRecord>, f: spec_fn(TokenRecord) -> nat, i: int)
    requires
        0 <= i <= s.len(),
    ensures
        field_sum(s.take(i), f) <= field_sum(s, f),
    decreases s.len(),
{
    if i < s.len() {
        assert(s.drop_last().take(i) == s.take(i));
        lemma_field_sum_prefix(s.drop_last(), f, i);
    } else {
        assert(s.take(i) == s);
    }
}

pub proof fn lemma_field_sum_le(s: Seq<TokenRecord>, f: spec_fn(TokenRecord) -> nat, g: spec_fn(TokenRecord) -> nat)
    requires
        forall|r: TokenRecord| #[trigger] f(r) <= g(r),
    ensures
        field_sum(s, f) <= field_sum(s, g),
    decreases s.len(),
{
    if s.len() > 0 {
        lemma_field_sum_le(s.drop_last(), f, g);
    }
}

pub proof fn lemma_count_le_len(s: Seq<TokenRecord>, op: Seq<char>)
    ensures
        field_sum(s, count_field(op)) <= s.len(),
    decreases s.len(),
{
    if s.len() > 0 {
        lemma_count_le_len(s.drop_last(), op);
    }
}

proof fn lemma_take_step(s: Seq<TokenRecord>, f: spec_fn(TokenRecord) -> nat, i: int)
    requires
        0 <= i < s.len(),
    ensures
        field_sum(s.take(i + 1), f) == field_sum(s.take(i), f) + f(s[i]),
{
    assert(s.take(i + 1).drop_last() == s.take(i));
}

/// Some record is of the operation.
pub open spec fn has_operation(s: Seq<TokenRecord>, op: Seq<char>) -> bool {
    exists|k: int| 0 <= k < s.len() && (#[trigger] s[k]).operation@ == op
}

/// The usage list is right for the records: one entry per operation that
/// occurs, with its number of calls and tokens, and nothing else.
pub open spec fn usage_matches(usage: Seq<OperationUsage>, s: Seq<TokenRecord>) -> bool {
    &&& forall|i: int, j: int| 0 <= i < usage.len() && 0 <= j < usage.len() && i != j
        ==> (#[trigger] usage[i]).operation@ != (#[trigger] usage[j]).operation@
    &&& forall|j: int| 0 <= j < usage.len() ==> {
        let u = #[trigger] usage[j];
        &&& has_operation(s, u.operation@)
        &&& u.count == field_sum(s, count_field(u.operation@))
        &&& u.total_tokens == field_sum(s, op_tokens_field(u.operation@))
    }
    &&& forall|k: int| 0 <= k < s.len() ==> exists|j: int| 0 <= j < usage.len()
        && (#[trigger] usage[j]).operation@ == (#[trigger] s[k]).operation@
}

/// Most tokens first.
pub open spec fn by_tokens_desc(usage: Seq<OperationUsage>) -> bool {
    forall|i: int, j: int| 0 <= i < j < usage.len() ==> (#[trigger] usage[i]).total_tokens >= (#[trigger] usage[j]).total_tokens
}

/// The usage of each operation, in the order operations first occur.
fn usage_by_operation(records: &Vec<TokenRecord>) -> (usage: Vec<OperationUsage>)
    requires
        records@.len() <= u32::MAX,
        field_sum(records@, total_field()) <= u32::MAX,
    ensures
        usage_matches(usage@, records@),
{
    let ghost s = records@;
    let mut usage: Vec<OperationUsage> = Vec::new();
    let mut i: usize = 0;
    while i < records.len()
        invariant
            s == records@,
            i <= s.len(),
            s.len() <= u32::MAX,
            field_sum(s, total_field()) <= u32::MAX,
            usage_matches(usage@, s.take(i as int)),
        decreases records.len() - i,
    {
        let ghost before = usage@;
        let ghost t = s.take(i as int);
        let ghost t1 = s.take(i + 1);
        let r = &records[i];
        proof {
            assert(t1.drop_last() == t);
            assert(t1.last() == s[i as int]);
        }
        let mut j: usize = 0;
        let t_op = r.operation.clone();
        while j < usage.len() && usage[j].operation != t_op
            invariant
                j <= usage@.len(),
                usage@ == before,
                t_op@ == r.operation@,
                forall|m: int| 0 <= m < j ==> (#[trigger] usage@[m]).operation@ != t_op@,
            decreases usage.len() - j,
        {
            j += 1;
        }
        if j < usage.len() {
            let ghost op = usage@[j as int].operation@;
            proof {
                lemma_take_step(s, count_field(op), i as int);
                lemma_take_step(s, op_tokens_field(op), i as int);
                lemma_count_le_len(t1, op);
                lemma_field_sum_le(t1, op_tokens_field(op), total_field());
                lemma_field_sum_prefix(s, total_field(), i + 1);
            }
            let old_u = &usage[j];
            let nu = OperationUsage {
                operation: old_u.operation.clone(),
                count: old_u.count + 1,
                total_tokens: old_u.total_tokens + r.total_tokens,
            };
            usage.set(j, nu);
            proof {
                let u = usage@;
                assert forall|m: int| 0 <= m < u.len() implies {
                    let x = #[trigger] u[m];
                    &&& has_operation(t1, x.operation@)
                    &&& x.count == field_sum(t1, count_field(x.operation@))
                    &&& x.total_tokens == field_sum(t1, op_tokens_field(x.operation@))
                } by {
                    if m != j {
                        let x = u[m];
                        assert(x == before[m]);
                        lemma_take_step(s, count_field(x.operation@), i as int);
                        lemma_take_step(s, op_tokens_field(x.operation@), i as int);
                        let k = choose|k: int| 0 <= k < t.len() && (#[trigger] t[k]).operation@ == x.operation@;
                        assert(t1[k] == t[k]);
                    } else {
                        assert(t1[i as int].operation@ == op);
                    }
                }
                assert forall|k: int| 0 <= k < t1.len() implies exists|m: int| 0 <= m < u.len()
                    && (#[trigger] u[m]).operation@ == (#[trigger] t1[k]).operation@ by {
                    if k < i {
                        assert(t1[k] == t[k]);
                        let m = choose|m: int| 0 <= m < before.len() && (#[trigger] before[m]).operation@ == (#[trigger] t[k]).operation@;
                        assert(u[m].operation@ == before[m].operation@);
                    } else {
                        assert(u[j as int].operation@ == t1[k].operation@);
                    }
                }
                assert forall|a: int, b: int| 0 <= a < u.len() && 0 <= b < u.len() && a != b
                    implies (#[trigger] u[a]).operation@ != (#[trigger] u[b]).operation@ by {
                    assert(u[a].operation@ == before[a].operation@);
                    assert(u[b].operation@ == before[b].operation@);
                }
            }
        } else {
            let ghost op = r.operation@;
            proof {
                lemma_take_step(s, count_field(op), i as int);
                lemma_take_step(s, op_tokens_field(op), i as int);
                assert forall|k: int| 0 <= k < t.len() implies (#[trigger] t[k]).operation@ != op by {
                    if t[k].operation@ == op {
                        let m = choose|m: int| 0 <= m < before.len() && (#[trigger] before[m]).operation@ == (#[trigger] t[k]).operation@;
                        assert(before[m].operation@ != t_op@);
                    }
                }
                lemma_no_calls(t, op);
                lemma_field_sum_prefix(s, total_field(), i + 1);
            }
            let nu = OperationUsage { operation: t_op, count: 1, total_tokens: r.total_tokens };
            usage.push(nu);
            proof {
                let u = usage@;
                assert(u == before.push(nu));
                assert forall|m: int| 0 <= m < u.len() implies {
                    let x = #[trigger] u[m];
                    &&& has_operation(t1, x.operation@)
                    &&& x.count == field_sum(t1, count_field(x.operation@))
                    &&& x.total_tokens == field_sum(t1, op_tokens_field(x.operation@))
                } by {
                    if m < before.len() {
                        let x = u[m];
                        assert(x == before[m]);
                        lemma_take_step(s, count_field(x.operation@), i as int);
                        lemma_take_step(s, op_tokens_field(x.operation@), i as int);
                        let k = choose|k: int| 0 <= k < t.len() && (#[trigger] t[k]).operation@ == x.operation@;
                        assert(t1[k] == t[k]);
                        assert(x.operation@ != op);
                    } else {
                        assert(t1[i as int].operation@ == op);
                    }
                }
                assert forall|k: int| 0 <= k < t1.len() implies exists|m: int| 0 <= m < u.len()
                    && (#[trigger] u[m]).operation@ == (#[trigger] t1[k]).operation@ by {
                    if k < i {
                        assert(t1[k] == t[k]);
                        let m = choose|m: int| 0 <= m < before.len() && (#[trigger] before[m]).operation@ == (#[trigger] t[k]).operation@;
                        assert(u[m] == before[m]);
                    } else {
                        assert(u[before.len() as int].operation@ == t1[k].operation@);
                    }
                }
                assert forall|a: int, b: int| 0 <= a < u.len() && 0 <= b < u.len() && a != b
                    implies (#[trigger] u[a]).operation@ != (#[trigger] u[b]).operation@ by {
                    if a < before.len() && b < before.len() {
                        assert(u[a] == before[a] && u[b] == before[b]);
                    } else if a < before.len() {
                        assert(u[a] == before[a]);
                        assert(before[a].operation@ != t_op@);
                    } else {
                        assert(u[b] == before[b]);
                        assert(before[b].operation@ != t_op@);
                    }
                }
            }
        }
        i += 1;
    }
    proof {
        assert(s.take(s.len() as int) == s);
    }
    usage
}

/// With no call of the operation, its count and tokens are 0.
proof fn lemma_no_calls(s: Seq<TokenRecord>, op: Seq<char>)
    requires
        forall|k: int| 0 <= k < s.len() ==> (#[trigger] s[k]).operation@ != op,
    ensures
        field_sum(s, count_field(op)) == 0,
        field_sum(s, op_tokens_field(op)) == 0,
    decreases s.len(),
{
    if s.len() > 0 {
        let p = s.drop_last();
        assert forall|k: int| 0 <= k < p.len() implies (#[trigger] p[k]).operation@ != op by {
            assert(p[k] == s[k]);
        }
        lemma_no_calls(p, op);
        assert(s[s.len() - 1].operation@ != op);
    }
}

impl Clone for OperationUsage {
    fn clone(&self) -> (r: Self)
        ensures
            r == *self,
    {
        OperationUsage { operation: self.operation.clone(), count: self.count, total_tokens: self.total_tokens }
    }
}

/// No operation is in the list twice.
pub open spec fn operations_unique(usage: Seq<OperationUsage>) -> bool {
    forall|i: int, j: int| 0 <= i < usage.len() && 0 <= j < usage.len() && i != j
        ==> (#[trigger] usage[i]).operation@ != (#[trigger] usage[j]).operation@
}

proof fn lemma_insert_desc(before: Seq<OperationUsage>, x: OperationUsage, p: int)
    requires
        by_tokens_desc(before),
        0 <= p <= before.len(),
        forall|q: int| 0 <= q < p ==> (#[trigger] before[q]).total_tokens >= x.total_tokens,
        p < before.len() ==> before[p].total_tokens < x.total_tokens,
    ensures
        by_tokens_desc(before.insert(p, x)),
{
    let o = before.insert(p, x);
    assert forall|a: int, b: int| 0 <= a < b < o.len() implies (#[trigger] o[a]).total_tokens >= (#[trigger] o[b]).total_tokens by {
        if b < p {
            assert(o[a] == before[a] && o[b] == before[b]);
        } else if b == p {
            assert(o[a] == before[a]);
        } else if a == p {
            assert(o[b] == before[b - 1]);
            if b - 1 > p {
                assert(before[p].total_tokens >= before[b - 1].total_tokens);
            }
        } else if a < p {
            assert(o[a] == before[a] && o[b] == before[b - 1]);
            assert(before[a].total_tokens >= x.total_tokens);
            if b - 1 > p {
                assert(before[p].total_tokens >= before[b - 1].total_tokens);
            }
        } else {
            assert(o[a] == before[a - 1] && o[b] == before[b - 1]);
        }
    }
}

/// Inserting `src[i]` at `p` keeps the index maps between the sorted list
/// and the source right, and no operation twice.
proof fn lemma_insert_step(
    before: Seq<OperationUsage>,
    p: int,
    src: Seq<OperationUsage>,
    i: int,
    from: Seq<int>,
    pos: Seq<int>,
)
    requires
        operations_unique(before),
        operations_unique(src),
        0 <= p <= before.len(),
        0 <= i < src.len(),
        before.len() == i,
        from.len() == i,
        pos.len() == i,
        forall|j: int| 0 <= j < i ==> 0 <= #[trigger] from[j] < i && before[j] == src[from[j]],
        forall|m: int| 0 <= m < i ==> 0 <= #[trigger] pos[m] < i && before[pos[m]] == src[m],
    ensures
        ({
            let o = before.insert(p, src[i]);
            let f = from.insert(p, i);
            let q = Seq::new((i + 1) as nat, |m: int| if m == i { p } else if pos[m] >= p { pos[m] + 1 } else { pos[m] });
            &&& operations_unique(o)
            &&& f.len() == i + 1
            &&& q.len() == i + 1
            &&& forall|j: int| 0 <= j < i + 1 ==> 0 <= #[trigger] f[j] < i + 1 && o[j] == src[f[j]]
            &&& forall|m: int| 0 <= m < i + 1 ==> 0 <= #[trigger] q[m] < i + 1 && o[q[m]] == src[m]
        }),
{
    let x = src[i];
    let o = before.insert(p, x);
    let f = from.insert(p, i);
    let q = Seq::new((i + 1) as nat, |m: int| if m == i { p } else if pos[m] >= p { pos[m] + 1 } else { pos[m] });
    assert forall|j: int| 0 <= j < before.len() implies (#[trigger] before[j]).operation@ != x.operation@ by {
        assert(before[j] == src[from[j]]);
        assert(from[j] != i);
    }
    assert forall|a: int, b: int| 0 <= a < o.len() && 0 <= b < o.len() && a != b
        implies (#[trigger] o[a]).operation@ != (#[trigger] o[b]).operation@ by {
        let oa = if a < p { a } else { a - 1 };
        let ob = if b < p { b } else { b - 1 };
        if a != p && b != p {
            assert(o[a] == before[oa] && o[b] == before[ob]);
        } else if a == p {
            assert(o[b] == before[ob]);
        } else {
            assert(o[a] == before[oa]);
        }
    }
    assert forall|j: int| 0 <= j < i + 1 implies 0 <= #[trigger] f[j] < i + 1 && o[j] == src[f[j]] by {
        if j < p {
            assert(f[j] == from[j] && o[j] == before[j]);
        } else if j > p {
            assert(f[j] == from[j - 1] && o[j] == before[j - 1]);
        }
    }
    assert forall|m: int| 0 <= m < i + 1 implies 0 <= #[trigger] q[m] < i + 1 && o[q[m]] == src[m] by {
        if m < i {
            let k = pos[m];
            assert(before[k] == src[m]);
            if k >= p {
                assert(o[k + 1] == before[k]);
            } else {
                assert(o[k] == before[k]);
            }
        }
    }
}

/// Sorts the usage list by tokens, most first (a stable insertion sort).
fn sort_usage(usage: &Vec<OperationUsage>) -> (res: (Vec<OperationUsage>, Ghost<Seq<int>>, Ghost<Seq<int>>))
    requires
        operations_unique(usage@),
    ensures
        by_tokens_desc(res.0@),
        operations_unique(res.0@),
        res.0@.len() == usage@.len(),
        res.1@.len() == usage@.len(),
        res.2@.len() == usage@.len(),
        forall|j: int| 0 <= j < usage@.len() ==> 0 <= #[trigger] res.1@[j] < usage@.len() && res.0@[j] == usage@[res.1@[j]],
        forall|m: int| 0 <= m < usage@.len() ==> 0 <= #[trigger] res.2@[m] < usage@.len() && res.0@[res.2@[m]] == usage@[m],
{
    let ghost src = usage@;
    let mut out: Vec<OperationUsage> = Vec::new();
    let ghost mut from: Seq<int> = Seq::empty();
    let ghost mut pos: Seq<int> = Seq::empty();
    let mut i: usize = 0;
    while i < usage.len()
        invariant
            src == usage@,
            i <= src.len(),
            operations_unique(src),
            out@.len() == i,
            from.len() == i,
            pos.len() == i,
            by_tokens_desc(out@),
            operations_unique(out@),
            forall|j: int| 0 <= j < i ==> 0 <= #[trigger] from[j] < i && out@[j] == src[from[j]],
            forall|m: int| 0 <= m < i ==> 0 <= #[trigger] pos[m] < i && out@[pos[m]] == src[m],
        decreases usage.len() - i,
    {
        let x = usage[i].clone();
        let mut p: usize = 0;
        while p < out.len() && out[p].total_tokens >= x.total_tokens
            invariant
                p <= out@.len(),
                forall|q: int| 0 <= q < p ==> (#[trigger] out@[q]).total_tokens >= x.total_tokens,
            decreases out.len() - p,
        {
            p += 1;
        }
        let ghost before = out@;
        out.insert(p, x);
        proof {
            assert(out@ == before.insert(p as int, src[i as int]));
            lemma_insert_desc(before, x, p as int);
            lemma_insert_step(before, p as int, src, i as int, from, pos);
            pos = Seq::new((i + 1) as nat, |m: int| if m == i { p as int } else if pos[m] >= p { pos[m] + 1 } else { pos[m] });
            from = from.insert(p as int, i as int);
        }
        i += 1;
    }
    (out, Ghost(from), Ghost(pos))
}

/// The 20 latest records, latest first.
pub open spec fn recent_records(s: Seq<TokenRecord>) -> Seq<TokenRecord> {
    let n: int = if s.len() < 20 { s.len() as int } else { 20 };
    Seq::new(n as nat, |k: int| s[s.len() - 1 - k])
}

/// The report on the log: the sums of prompt, completion and total tokens,
/// one usage entry per operation (most tokens first; the order of entries
/// with equal tokens is not fixed), and the 20 latest records, latest first.
pub fn get_report(records: &Vec<TokenRecord>) -> (report: TokenReport)
    requires
        records@.len() <= u32::MAX,
        field_sum(records@, prompt_field()) <= u32::MAX,
        field_sum(records@, completion_field()) <= u32::MAX,
        field_sum(records@, total_field()) <= u32::MAX,
    ensures
        report.total_prompt_tokens == field_sum(records@, prompt_field()),
        report.total_completion_tokens == field_sum(records@, completion_field()),
        report.total_tokens == field_sum(records@, total_field()),
        usage_matches(report.by_operation@, records@),
        by_tokens_desc(report.by_operation@),
        report.recent@ == recent_records(records@),
{
    let ghost s = records@;
    let mut prompt: u32 = 0;
    let mut completion: u32 = 0;
    let mut total: u32 = 0;
    let mut i: usize = 0;
    while i < records.len()
        invariant
            s == records@,
            i <= s.len(),
            field_sum(s, prompt_field()) <= u32::MAX,
            field_sum(s, completion_field()) <= u32::MAX,
            field_sum(s, total_field()) <= u32::MAX,
            prompt == field_sum(s.take(i as int), prompt_field()),
            completion == field_sum(s.take(i as int), completion_field()),
            total == field_sum(s.take(i as int), total_field()),
        decreases records.len() - i,
    {
        proof {
            lemma_take_step(s, prompt_field(), i as int);
            lemma_take_step(s, completion_field(), i as int);
            lemma_take_step(s, total_field(), i as int);
            lemma_field_sum_prefix(s, prompt_field(), i + 1);
            lemma_field_sum_prefix(s, completion_field(), i + 1);
            lemma_field_sum_prefix(s, total_field(), i + 1);
        }
        prompt = prompt + records[i].prompt_tokens;
        completion = completion + records[i].completion_tokens;
        total = total + records[i].total_tokens;
        i += 1;
    }
    proof {
        assert(s.take(s.len() as int) == s);
    }
    let usage = usage_by_operation(records);
    let (by_operation, Ghost(from), Ghost(pos)) = sort_usage(&usage);
    proof {
        let u = usage@;
        let b = by_operation@;
        assert forall|j: int| 0 <= j < b.len() implies {
            let x = #[trigger] b[j];
            &&& has_operation(s, x.operation@)
            &&& x.count == field_sum(s, count_field(x.operation@))
            &&& x.total_tokens == field_sum(s, op_tokens_field(x.operation@))
        } by {
            assert(b[j] == u[from[j]]);
        }
        assert forall|k: int| 0 <= k < s.len() implies exists|j: int| 0 <= j < b.len()
            && (#[trigger] b[j]).operation@ == (#[trigger] s[k]).operation@ by {
            let m = choose|m: int| 0 <= m < u.len() && (#[trigger] u[m]).operation@ == (#[trigger] s[k]).operation@;
            assert(b[pos[m]] == u[m]);
        }
    }
    let mut recent: Vec<TokenRecord> = Vec::new();
    let mut k: usize = 0;
    while k < 20 && k < records.len()
        invariant
            s == records@,
            k <= 20,
            k <= s.len(),
            recent@.len() == k,
            forall|q: int| 0 <= q < k ==> recent@[q] == s[s.len() - 1 - q],
        decreases records.len() - k,
    {
        recent.push(records[records.len() - 1 - k].clone());
        k += 1;
    }
    proof {
        assert(recent@ =~= recent_records(s));
    }
    TokenReport {
        total_prompt_tokens: prompt,
        total_completion_tokens: completion,
        total_tokens: total,
        by_operation,
        recent,
    }
}


/// The token counts in the `usage` object of an AI response: each is the
/// field's value when it is a non-negative integer, else absent.
pub struct UsageFields {
    pub prompt_tokens: Option<u64>,
    pub completion_tokens: Option<u64>,
    pub input_tokens: Option<u64>,
    pub output_tokens: Option<u64>,
}

/// A count as the log keeps it: 0 when absent, else its low 32 bits.
pub open spec fn count_u32(x: Option<u64>) -> u32 {
    match x {
        Some(v) => v as u32,
        None => 0,
    }
}

fn count_u32_exec(x: Option<u64>) -> (r: u32)
    ensures
        r == count_u32(x),
{
    match x {
        Some(v) => v as u32,
        None => 0,
    }
}

/// The prompt and completion tokens of a response: `prompt_tokens` and
/// `completion_tokens` when either is non-zero, else `input_tokens` and
/// `output_tokens` when either is non-zero, else none.
pub open spec fn usage_of(usage: Option<UsageFields>) -> Option<(u32, u32)> {
    match usage {
        None => None,
        Some(u) => {
            let p = count_u32(u.prompt_tokens);
            let c = count_u32(u.completion_tokens);
            let i = count_u32(u.input_tokens);
            let o = count_u32(u.output_tokens);
            if p > 0 || c > 0 {
                Some((p, c))
            } else if i > 0 || o > 0 {
                Some((i, o))
            } else {
                None
            }
        },
    }
}

pub fn extract_usage_from_response(usage: &Option<UsageFields>) -> (r: Option<(u32, u32)>)
    ensures
        r == usage_of(*usage),
{
    match usage {
        None => None,
        Some(u) => {
            let p = count_u32_exec(u.prompt_tokens);
            let c = count_u32_exec(u.completion_tokens);
            if p > 0 || c > 0 {
                return Some((p, c));
            }
            let i = count_u32_exec(u.input_tokens);
            let o = count_u32_exec(u.output_tokens);
            if i > 0 || o > 0 {
                Some((i, o))
            } else {
                None
            }
        },
    }
}


/// The latest call of the log comes first among the report's recent calls.
pub proof fn lemma_latest_call_first(records: Seq<TokenRecord>)
    requires
        records.len() > 0,
    ensures
        recent_records(records).len() > 0,
        recent_records(records)[0] == records.last(),
{
}

} // verus!
