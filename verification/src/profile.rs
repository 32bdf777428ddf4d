//! Time spent under names: how often, how long in all, and at most.
use crate::text::{
    all_digits, append_chars, append_text, chars_of, copy_chars, decimal, law_decimal_reads_back,
    render_number, same_chars, value_of,
};
use crate::training::lemma_zeros;
use vstd::prelude::*;

verus! {

/// The calls under a name, with their total and greatest time in nanoseconds.
#[derive(Clone, Copy, Debug, PartialEq, Eq, Structural)]
pub struct ProfileStat {
    pub calls: u64,
    pub total: u128,
    pub max: u128,
}

pub open spec fn no_calls() -> ProfileStat {
    ProfileStat { calls: 0, total: 0, max: 0 }
}

impl Default for ProfileStat {
    fn default() -> (result: ProfileStat)
        ensures
            result == no_calls(),
    {
        ProfileStat { calls: 0, total: 0, max: 0 }
    }
}

impl ProfileStat {
    pub open spec fn plus(self, other: ProfileStat) -> ProfileStat {
        ProfileStat {
            calls: (self.calls + other.calls) as u64,
            total: (self.total + other.total) as u128,
            max: if other.max > self.max {
                other.max
            } else {
                self.max
            },
        }
    }

    pub open spec fn addable(self, other: ProfileStat) -> bool {
        &&& self.calls + other.calls <= u64::MAX
        &&& self.total + other.total <= u128::MAX
    }

    fn sum(self, other: ProfileStat) -> (result: ProfileStat)
        requires
            self.addable(other),
        ensures
            result == self.plus(other),
    {
        ProfileStat {
            calls: self.calls + other.calls,
            total: self.total + other.total,
            max: if other.max > self.max {
                other.max
            } else {
                self.max
            },
        }
    }
}

/// A name with what is spent under it.
pub struct Row {
    pub name: Vec<char>,
    pub stat: ProfileStat,
}

/// What is spent under each name.
pub struct Profile {
    rows: Vec<Row>,
}

spec fn table(rows: Seq<Row>) -> Map<Seq<char>, ProfileStat>
    decreases rows.len(),
{
    if rows.len() == 0 {
        Map::empty()
    } else {
        table(rows.drop_last()).insert(rows.last().name@, rows.last().stat)
    }
}

spec fn distinct_names(rows: Seq<Row>) -> bool {
    forall|i: int, j: int| 0 <= i < j < rows.len() ==> rows[i].name@ != rows[j].name@
}

impl View for Profile {
    type V = Map<Seq<char>, ProfileStat>;

    closed spec fn view(&self) -> Map<Seq<char>, ProfileStat> {
        table(self.rows@)
    }
}

/// What a profile holds under a name.
pub open spec fn entry(profile: Map<Seq<char>, ProfileStat>, name: Seq<char>) -> ProfileStat {
    if profile.dom().contains(name) {
        profile[name]
    } else {
        no_calls()
    }
}

/// Two profiles taken together.
pub open spec fn together(
    a: Map<Seq<char>, ProfileStat>,
    b: Map<Seq<char>, ProfileStat>,
) -> Map<Seq<char>, ProfileStat> {
    Map::new(
        |name: Seq<char>| a.dom().contains(name) || b.dom().contains(name),
        |name: Seq<char>| entry(a, name).plus(entry(b, name)),
    )
}

proof fn lemma_table(rows: Seq<Row>, name: Seq<char>)
    ensures
        table(rows).dom().contains(name) <==> exists|i: int|
            0 <= i < rows.len() && (#[trigger] rows[i]).name@ == name,
    decreases rows.len(),
{
    if rows.len() > 0 {
        let rest = rows.drop_last();
        lemma_table(rest, name);
        if table(rows).dom().contains(name) {
            if rows.last().name@ == name {
                assert(rows[rows.len() - 1].name@ == name);
            } else {
                let i = choose|i: int| 0 <= i < rest.len() && (#[trigger] rest[i]).name@ == name;
                assert(rows[i].name@ == name);
            }
        }
        if exists|i: int| 0 <= i < rows.len() && (#[trigger] rows[i]).name@ == name {
            let i = choose|i: int| 0 <= i < rows.len() && (#[trigger] rows[i]).name@ == name;
            if i < rest.len() {
                assert(rest[i].name@ == name);
            }
        }
    }
}

proof fn lemma_table_entry(rows: Seq<Row>, i: int)
    requires
        distinct_names(rows),
        0 <= i < rows.len(),
    ensures
        table(rows).dom().contains(rows[i].name@),
        table(rows)[rows[i].name@] == rows[i].stat,
    decreases rows.len(),
{
    let rest = rows.drop_last();
    if i < rest.len() {
        assert(distinct_names(rest));
        lemma_table_entry(rest, i);
        assert(rows[i].name@ != rows[rows.len() - 1].name@);
    }
}

proof fn lemma_table_update(rows: Seq<Row>, i: int, row: Row)
    requires
        distinct_names(rows),
        0 <= i < rows.len(),
        row.name@ == rows[i].name@,
    ensures
        table(rows.update(i, row)) == table(rows).insert(row.name@, row.stat),
    decreases rows.len(),
{
    let rest = rows.drop_last();
    let changed = rows.update(i, row);
    if i == rows.len() - 1 {
        assert(changed.drop_last() =~= rest);
        assert(table(changed) =~= table(rows).insert(row.name@, row.stat));
    } else {
        assert(distinct_names(rest));
        lemma_table_update(rest, i, row);
        assert(changed.drop_last() =~= rest.update(i, row));
        assert(rows[i].name@ != rows[rows.len() - 1].name@);
        assert(table(changed) =~= table(rows).insert(row.name@, row.stat));
    }
}

impl Profile {
    #[verifier::type_invariant]
    spec fn each_name_once(self) -> bool {
        distinct_names(self.rows@)
    }

    pub fn new() -> (result: Profile)
        ensures
            result@ == Map::<Seq<char>, ProfileStat>::empty(),
    {
        Profile { rows: Vec::new() }
    }

    /// Adds to what is spent under a name.
    fn add_to(&mut self, name: &Vec<char>, stat: ProfileStat)
        requires
            entry(old(self)@, name@).addable(stat),
        ensures
            final(self)@ == old(self)@.insert(name@, entry(old(self)@, name@).plus(stat)),
    {
        proof {
            use_type_invariant(&*self);
            lemma_table(self.rows@, name@);
        }
        let ghost before = self.rows@;
        let mut i: usize = 0;
        while i < self.rows.len() && !same_chars(&self.rows[i].name, name)
            invariant
                i <= self.rows@.len(),
                self.rows@ == before,
                forall|k: int| 0 <= k < i ==> (#[trigger] before[k]).name@ != name@,
            decreases self.rows@.len() - i,
        {
            i = i + 1;
        }
        let mut rows: Vec<Row> = Vec::new();
        std::mem::swap(&mut rows, &mut self.rows);
        if i < rows.len() {
            proof {
                lemma_table_entry(before, i as int);
            }
            let row: Row = Row { name: copy_chars(name), stat: rows[i].stat.sum(stat) };
            proof {
                lemma_table_update(before, i as int, row);
            }
            rows.set(i, row);
        } else {
            let none: ProfileStat = ProfileStat::default();
            let row: Row = Row { name: copy_chars(name), stat: none.sum(stat) };
            rows.push(row);
            assert(rows@.drop_last() =~= before);
        }
        self.rows = rows;
    }
}

/// Counts a call under a name.
pub fn record(stats: &mut Profile, name: &str, elapsed: u128)
    requires
        entry(old(stats)@, name@).calls < u64::MAX,
        entry(old(stats)@, name@).total + elapsed <= u128::MAX,
    ensures
        final(stats)@ == old(stats)@.insert(
            name@,
            entry(old(stats)@, name@).plus(ProfileStat { calls: 1, total: elapsed, max: elapsed }),
        ),
{
    let chars: Vec<char> = chars_of(name);
    stats.add_to(&chars, ProfileStat { calls: 1, total: elapsed, max: elapsed });
}

/// Moves what a thread has spent to the whole.
pub fn flush_thread(local: &mut Profile, global: &mut Profile)
    requires
        forall|name: Seq<char>|
            #[trigger] old(local)@.dom().contains(name) ==> entry(old(global)@, name).addable(
                old(local)@[name],
            ),
    ensures
        final(local)@ == Map::<Seq<char>, ProfileStat>::empty(),
        final(global)@ == together(old(global)@, old(local)@),
{
    proof {
        use_type_invariant(&*local);
    }
    let ghost rows = local.rows@;
    let ghost whole = global@;
    let ghost moved = local@;
    let mut i: usize = 0;
    proof {
        assert(rows.take(0) =~= Seq::<Row>::empty());
        assert(together(whole, table(rows.take(0))) =~= whole) by {
            assert forall|name: Seq<char>| whole.dom().contains(name) implies #[trigger] whole[name]
                == whole[name].plus(no_calls()) by {}
        }
    }
    while i < local.rows.len()
        invariant
            i <= rows.len(),
            local.rows@ == rows,
            distinct_names(rows),
            moved == table(rows),
            global@ == together(whole, table(rows.take(i as int))),
            forall|name: Seq<char>|
                #[trigger] moved.dom().contains(name) ==> entry(whole, name).addable(moved[name]),
        decreases rows.len() - i,
    {
        proof {
            let name = rows[i as int].name@;
            let before = rows.take(i as int);
            let after = rows.take(i + 1);
            lemma_table_entry(rows, i as int);
            lemma_table(before, name);
            assert(after.drop_last() =~= before);
            assert(!table(before).dom().contains(name));
            assert(entry(whole, name).plus(no_calls()) == entry(whole, name));
            assert(moved.dom().contains(name));
            assert(together(whole, table(before)).insert(
                name,
                entry(whole, name).plus(rows[i as int].stat),
            ) =~= together(whole, table(after)));
        }
        let stat: ProfileStat = local.rows[i].stat;
        global.add_to(&local.rows[i].name, stat);
        i = i + 1;
    }
    assert(rows.take(rows.len() as int) =~= rows);
    *local = Profile::new();
}

/// The names and what is spent under them.
pub open spec fn row_views(rows: Seq<Row>) -> Seq<(Seq<char>, ProfileStat)> {
    rows.map_values(|row: Row| (row.name@, row.stat))
}

/// Longest total first.
pub open spec fn longest_first(rows: Seq<(Seq<char>, ProfileStat)>) -> bool {
    forall|i: int, j: int| 0 <= i <= j < rows.len() ==> rows[i].1.total >= rows[j].1.total
}

/// The rows list a profile: each name once, with what is under it.
pub open spec fn lists(
    rows: Seq<(Seq<char>, ProfileStat)>,
    profile: Map<Seq<char>, ProfileStat>,
) -> bool {
    &&& forall|i: int|
        0 <= i < rows.len() ==> profile.dom().contains((#[trigger] rows[i]).0)
            && profile[rows[i].0] == rows[i].1
    &&& forall|name: Seq<char>|
        #[trigger] profile.dom().contains(name) ==> exists|i: int|
            0 <= i < rows.len() && (#[trigger] rows[i]).0 == name
    &&& forall|i: int, j: int| 0 <= i < j < rows.len() ==> rows[i].0 != rows[j].0
}

/// Moves what a thread has spent to the whole, and lists it, the longest
/// total first.
pub fn report(local: &mut Profile, global: &mut Profile) -> (rows: Vec<Row>)
    requires
        forall|name: Seq<char>|
            #[trigger] old(local)@.dom().contains(name) ==> entry(old(global)@, name).addable(
                old(local)@[name],
            ),
    ensures
        final(local)@ == Map::<Seq<char>, ProfileStat>::empty(),
        final(global)@ == together(old(global)@, old(local)@),
        longest_first(row_views(rows@)),
        lists(row_views(rows@), final(global)@),
{
    flush_thread(local, global);
    proof {
        use_type_invariant(&*global);
    }
    let ghost all = global.rows@;
    let mut rows: Vec<Row> = Vec::new();
    let mut i: usize = 0;
    assert(all.take(0) =~= Seq::<Row>::empty());
    while i < global.rows.len()
        invariant
            i <= all.len(),
            global.rows@ == all,
            distinct_names(all),
            longest_first(row_views(rows@)),
            lists(row_views(rows@), table(all.take(i as int))),
            rows@.len() == i,
        decreases all.len() - i,
    {
        let row: Row = Row { name: copy_chars(&global.rows[i].name), stat: global.rows[i].stat };
        let ghost before = row_views(rows@);
        let ghost seen = table(all.take(i as int));
        let ghost name = row.name@;
        proof {
            assert(all.take(i + 1).drop_last() =~= all.take(i as int));
            assert(table(all.take(i + 1)) == seen.insert(name, row.stat));
            lemma_table(all.take(i as int), name);
            assert(!seen.dom().contains(name));
        }
        let mut at: usize = 0;
        while at < rows.len() && rows[at].stat.total >= row.stat.total
            invariant
                at <= rows@.len(),
                before == row_views(rows@),
                forall|k: int| 0 <= k < at ==> (#[trigger] before[k]).1.total >= row.stat.total,
            decreases rows@.len() - at,
        {
            assert(before[at as int] == (rows@[at as int].name@, rows@[at as int].stat));
            at = at + 1;
        }
        proof {
            if at < rows@.len() {
                assert(before[at as int] == (rows@[at as int].name@, rows@[at as int].stat));
            }
        }
        let ghost entry_row = (name, row.stat);
        rows.insert(at, row);
        proof {
            let after = row_views(rows@);
            assert(after =~= before.insert(at as int, entry_row));
            lemma_list_insert(before, seen, at as int, entry_row);
        }
        i = i + 1;
    }
    assert(all.take(all.len() as int) =~= all);
    rows
}

proof fn lemma_list_insert(
    rows: Seq<(Seq<char>, ProfileStat)>,
    profile: Map<Seq<char>, ProfileStat>,
    at: int,
    row: (Seq<char>, ProfileStat),
)
    requires
        lists(rows, profile),
        !profile.dom().contains(row.0),
        0 <= at <= rows.len(),
    ensures
        lists(rows.insert(at, row), profile.insert(row.0, row.1)),
{
    let after = rows.insert(at, row);
    let more = profile.insert(row.0, row.1);
    assert forall|i: int| 0 <= i < after.len() implies more.dom().contains((#[trigger] after[i]).0)
        && more[after[i].0] == after[i].1 by {
        if i < at {
            assert(after[i] == rows[i]);
        } else if i > at {
            assert(after[i] == rows[i - 1]);
        }
    }
    assert forall|name: Seq<char>| #[trigger] more.dom().contains(name) implies exists|i: int|
        0 <= i < after.len() && (#[trigger] after[i]).0 == name by {
        if name == row.0 {
            assert(after[at].0 == name);
        } else {
            assert(profile.dom().contains(name));
            let i = choose|i: int| 0 <= i < rows.len() && (#[trigger] rows[i]).0 == name;
            if i < at {
                assert(after[i].0 == name);
            } else {
                assert(after[i + 1].0 == name);
            }
        }
    }
    assert forall|i: int, j: int| 0 <= i < j < after.len() implies after[i].0 != after[j].0 by {
        let a = if i < at {
            i
        } else {
            i - 1
        };
        let b = if j < at {
            j
        } else {
            j - 1
        };
        if i == at {
            assert(after[j] == rows[b]);
            assert(profile.dom().contains(rows[b].0));
        } else if j == at {
            assert(after[i] == rows[a]);
            assert(profile.dom().contains(rows[a].0));
        } else {
            assert(after[i] == rows[a]);
            assert(after[j] == rows[b]);
        }
    }
}

/// Spaces to a width.
pub open spec fn spaces(width: int, used: int) -> Seq<char> {
    Seq::new(
        (if used < width {
            width - used
        } else {
            0
        }) as nat,
        |i: int| ' ',
    )
}

fn append_spaces(to: &mut Vec<char>, width: usize, used: usize)
    ensures
        final(to)@ == old(to)@ + spaces(width as int, used as int),
{
    let ghost before = to@;
    let mut k: usize = used;
    assert(before + spaces(0, 0) =~= before);
    assert(spaces(used as int, used as int) =~= spaces(0, 0));
    while k < width
        invariant
            used <= k,
            k <= width || k == used,
            to@ == before + spaces(k as int, used as int),
        decreases width - k,
    {
        to.push(' ');
        assert(to@ =~= before + spaces(k + 1, used as int));
        k = k + 1;
    }
    assert(spaces(k as int, used as int) =~= spaces(width as int, used as int));
}

/// A number right-justified in twelve columns.
pub open spec fn column(n: nat) -> Seq<char> {
    spaces(12, decimal(n).len() as int) + decimal(n)
}

/// Thousandths right-justified in twelve columns, with a decimal point.
pub open spec fn milli_column(n: nat) -> Seq<char> {
    let text = milli_text(n);
    spaces(12, text.len() as int) + text
}

/// Thousandths with a decimal point.
pub open spec fn milli_text(n: nat) -> Seq<char> {
    let tail = decimal(n % 1000);
    decimal(n / 1000) + "."@ + Seq::new((3 - tail.len()) as nat, |i: int| '0') + tail
}

/// The line of a row: its name, the calls, the total in milliseconds, and the
/// mean and greatest time in microseconds.
pub open spec fn row_line(name: Seq<char>, stat: ProfileStat) -> Seq<char> {
    let micros = stat.total as nat / 1000;
    let calls: nat = if stat.calls == 0 {
        1
    } else {
        stat.calls as nat
    };
    name + spaces(36, name.len() as int) + " "@ + column(stat.calls as nat) + " "@ + milli_column(
        micros,
    ) + " "@ + column(micros / calls) + " "@ + column(stat.max as nat / 1000) + "\n"@
}

/// The lines of the first `n` rows.
pub open spec fn lines_of(rows: Seq<(Seq<char>, ProfileStat)>, n: nat) -> Seq<char>
    decreases n,
{
    if n == 0 {
        Seq::empty()
    } else {
        lines_of(rows, (n - 1) as nat) + row_line(rows[n - 1].0, rows[n - 1].1)
    }
}

/// The head of the report.
pub open spec fn head_line() -> Seq<char> {
    "name                                        calls     total_ms       avg_us       max_us\n"@
}

/// The report as text.
pub open spec fn report_text(rows: Seq<(Seq<char>, ProfileStat)>) -> Seq<char> {
    if rows.len() == 0 {
        "profile: no samples\n"@
    } else {
        "profile:\n"@ + head_line() + lines_of(rows, rows.len())
    }
}

fn append_column(to: &mut Vec<char>, n: u64)
    ensures
        final(to)@ == old(to)@ + column(n as nat),
{
    let ghost before = to@;
    let digits: Vec<char> = render_number(n);
    append_spaces(to, 12, digits.len());
    append_chars(to, &digits);
    assert(to@ =~= before + column(n as nat));
}

proof fn lemma_three_digits(n: nat)
    requires
        n < 1000,
    ensures
        decimal(n).len() <= 3,
{
    reveal_with_fuel(decimal, 4);
}

fn milli_chars(n: u64) -> (result: Vec<char>)
    ensures
        result@ == milli_text(n as nat),
{
    let mut result: Vec<char> = render_number(n / 1000);
    append_text(&mut result, ".");
    let digits: Vec<char> = render_number(n % 1000);
    proof {
        lemma_three_digits((n % 1000) as nat);
    }
    let ghost start = result@;
    let mut k: usize = digits.len();
    assert(start + Seq::new(0, |i: int| '0') =~= start);
    while k < 3
        invariant
            digits@.len() <= k <= 3,
            result@ == start + Seq::new((k - digits@.len()) as nat, |i: int| '0'),
        decreases 3 - k,
    {
        result.push('0');
        assert(result@ =~= start + Seq::new((k + 1 - digits@.len()) as nat, |i: int| '0'));
        k = k + 1;
    }
    append_chars(&mut result, &digits);
    result
}

#[verifier::rlimit(30)]
fn append_row(to: &mut Vec<char>, name: &Vec<char>, stat: ProfileStat)
    requires
        stat.total / 1000 <= u64::MAX,
        stat.max / 1000 <= u64::MAX,
    ensures
        final(to)@ == old(to)@ + row_line(name@, stat),
{
    let ghost before = to@;
    let micros: u64 = (stat.total / 1000) as u64;
    let calls: u64 = if stat.calls == 0 {
        1
    } else {
        stat.calls
    };
    append_chars(to, name);
    append_spaces(to, 36, name.len());
    append_text(to, " ");
    append_column(to, stat.calls);
    append_text(to, " ");
    let milli: Vec<char> = milli_chars(micros);
    append_spaces(to, 12, milli.len());
    append_chars(to, &milli);
    append_text(to, " ");
    append_column(to, micros / calls);
    append_text(to, " ");
    append_column(to, (stat.max / 1000) as u64);
    append_text(to, "\n");
    assert(to@ =~= before + row_line(name@, stat));
}

/// The report as text. A total of more microseconds than a word can hold is
/// left out of the inputs.
pub fn print_report(rows: &Vec<Row>) -> (result: Vec<char>)
    requires
        forall|i: int|
            0 <= i < rows@.len() ==> (#[trigger] rows@[i]).stat.total / 1000 <= u64::MAX
                && rows@[i].stat.max / 1000 <= u64::MAX,
    ensures
        result@ == report_text(row_views(rows@)),
{
    if rows.len() == 0 {
        return chars_of("profile: no samples\n");
    }
    let mut result: Vec<char> = chars_of("profile:\n");
    append_text(
        &mut result,
        "name                                        calls     total_ms       avg_us       max_us\n",
    );
    let ghost head = result@;
    let ghost views = row_views(rows@);
    let mut i: usize = 0;
    assert(head + lines_of(views, 0) =~= head);
    while i < rows.len()
        invariant
            i <= rows@.len(),
            views == row_views(rows@),
            forall|k: int|
                0 <= k < rows@.len() ==> (#[trigger] rows@[k]).stat.total / 1000 <= u64::MAX
                    && rows@[k].stat.max / 1000 <= u64::MAX,
            result@ == head + lines_of(views, i as nat),
        decreases rows@.len() - i,
    {
        assert(views[i as int] == (rows@[i as int].name@, rows@[i as int].stat));
        append_row(&mut result, &rows[i].name, rows[i].stat);
        assert(result@ =~= head + lines_of(views, (i + 1) as nat));
        i = i + 1;
    }
    result
}

/// A call under way: its name, and when it started.
pub struct ScopeTimer {
    pub name: Vec<char>,
    pub start: u128,
}

impl ScopeTimer {
    /// Starts a call at the given time.
    pub fn new(name: &str, start: u128) -> (result: ScopeTimer)
        ensures
            result.name@ == name@,
            result.start == start,
    {
        ScopeTimer { name: chars_of(name), start }
    }

    /// Ends the call at the given time and counts it.
    pub fn stop(self, now: u128, stats: &mut Profile)
        requires
            self.start <= now,
            entry(old(stats)@, self.name@).calls < u64::MAX,
            entry(old(stats)@, self.name@).total + (now - self.start) <= u128::MAX,
        ensures
            final(stats)@ == old(stats)@.insert(
                self.name@,
                entry(old(stats)@, self.name@).plus(
                    ProfileStat {
                        calls: 1,
                        total: (now - self.start) as u128,
                        max: (now - self.start) as u128,
                    },
                ),
            ),
    {
        let elapsed: u128 = now - self.start;
        stats.add_to(&self.name, ProfileStat { calls: 1, total: elapsed, max: elapsed });
    }
}

/// What two profiles hold together does not depend on their order; under every
/// name the calls and times add up, and the greatest time is the greater.
pub proof fn law_profiles_add_up(
    a: Map<Seq<char>, ProfileStat>,
    b: Map<Seq<char>, ProfileStat>,
    name: Seq<char>,
)
    requires
        entry(a, name).addable(entry(b, name)),
    ensures
        ({
            let sum = entry(together(a, b), name);
            &&& sum == entry(together(b, a), name)
            &&& sum.calls - entry(a, name).calls == entry(b, name).calls
            &&& sum.total - entry(a, name).total == entry(b, name).total
            &&& sum.max >= entry(a, name).max && sum.max >= entry(b, name).max
            &&& sum.max == entry(a, name).max || sum.max == entry(b, name).max
        }),
        together(a, b).dom().contains(name) <==> a.dom().contains(name) || b.dom().contains(name),
        entry(a, name).plus(no_calls()) == entry(a, name),
{
}

/// A column is right-justified in twelve places: blanks, then the number.
pub proof fn law_columns_are_right_justified(n: nat)
    ensures
        column(n).len() >= 12,
        decimal(n).len() <= 12 ==> column(n).len() == 12,
        column(n).skip(column(n).len() - decimal(n).len()) == decimal(n),
        forall|i: int|
            0 <= i < column(n).len() - decimal(n).len() ==> #[trigger] column(n)[i] == ' ',
{
    assert(column(n).skip(column(n).len() - decimal(n).len()) =~= decimal(n));
}

/// Thousandths are written with the whole number before the point and three
/// digits behind it, which read back.
pub proof fn law_thousandths_read_back(n: nat)
    ensures
        ({
            let text = milli_text(n);
            let k = text.len() - 4;
            &&& k > 0
            &&& text[k] == '.'
            &&& all_digits(text.take(k)) && all_digits(text.skip(k + 1))
            &&& value_of(text.take(k)) * 1000 + value_of(text.skip(k + 1)) == n
        }),
{
    let (whole, tail) = (decimal(n / 1000), decimal(n % 1000));
    reveal_strlit(".");
    law_decimal_reads_back(n / 1000);
    law_decimal_reads_back(n % 1000);
    lemma_three_digits(n % 1000);
    let zeros = Seq::new((3 - tail.len()) as nat, |i: int| '0');
    let text = milli_text(n);
    let k = text.len() - 4;
    assert(text.take(k) =~= whole);
    assert(text.skip(k + 1) =~= zeros + tail);
    lemma_zeros((3 - tail.len()) as nat, tail);
}

/// A line begins with its name, and tells the calls, the whole milliseconds in
/// thousandths, the mean and the greatest time, each in a column behind a
/// blank. The mean is the total over the calls, rounded down.
pub proof fn law_report_lines_tell_the_times(name: Seq<char>, stat: ProfileStat)
    requires
        name.len() <= 36,
        decimal(stat.calls as nat).len() <= 12,
        milli_text(stat.total as nat / 1000).len() <= 12,
        stat.calls > 0,
    ensures
        ({
            let line = row_line(name, stat);
            let micros = stat.total as nat / 1000;
            &&& line.take(name.len() as int) == name
            &&& line.subrange(37, 49) == column(stat.calls as nat)
            &&& line.subrange(50, 62) == milli_column(micros)
            &&& exists|mean: nat|
                {
                    &&& mean * stat.calls <= micros < (mean + 1) * stat.calls
                    &&& line.skip(62) == #[trigger] column(mean).insert(0, ' ') + (" "@ + column(
                        stat.max as nat / 1000,
                    ) + "\n"@)
                }
        }),
{
    reveal_strlit(" ");
    reveal_strlit("\n");
    let line = row_line(name, stat);
    let micros = stat.total as nat / 1000;
    let calls = stat.calls as nat;
    let mean = micros / calls;
    law_columns_are_right_justified(calls);
    assert(spaces(36, name.len() as int).len() == 36 - name.len());
    assert(line.take(name.len() as int) =~= name);
    assert(line.subrange(37, 49) =~= column(calls));
    assert(milli_column(micros).len() == 12);
    assert(line.subrange(50, 62) =~= milli_column(micros));
    assert(line.skip(62) =~= column(mean).insert(0, ' ') + (" "@ + column(stat.max as nat / 1000)
        + "\n"@));
    assert(mean * calls <= micros < (mean + 1) * calls) by (nonlinear_arith)
        requires
            mean == micros / calls,
            calls > 0,
    ;
}

} // verus!
