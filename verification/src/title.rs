//! The title of the window: the time, and what the program and its children use.

use crate::arith;
use crate::text;
use crate::wording;
use crate::wording::Wording;
use vstd::prelude::*;

verus! {

// ---------------------------------------------------------------------------
// Time
// ---------------------------------------------------------------------------

/// A local time.
#[derive(Clone, Copy, Debug, PartialEq, Eq, Structural)]
pub struct LocalTime {
    pub year: u16,
    pub month: u16,
    pub day_of_week: u16,
    pub day: u16,
    pub hour: u16,
    pub minute: u16,
}

/// The names of the days.
pub open spec fn day_names() -> Seq<Seq<char>> {
    seq![
        "Sunday"@,
        "Monday"@,
        "Tuesday"@,
        "Wednesday"@,
        "Thursday"@,
        "Friday"@,
        "Saturday"@,
    ]
}

/// The names of the months.
pub open spec fn month_names() -> Seq<Seq<char>> {
    seq![
        "January"@,
        "February"@,
        "March"@,
        "April"@,
        "May"@,
        "June"@,
        "July"@,
        "August"@,
        "September"@,
        "October"@,
        "November"@,
        "December"@,
    ]
}

/// The name at a place, if there is one.
pub open spec fn name_at(names: Seq<Seq<char>>, i: int) -> Seq<char> {
    if 0 <= i < names.len() {
        names[i]
    } else {
        "Unknown"@
    }
}

/// A number with at least two digits.
pub open spec fn two_digits(n: int) -> Seq<char> {
    if n < 10 {
        "0"@ + text::decimal(n)
    } else {
        text::decimal(n)
    }
}

/// The hour on a dial.
pub open spec fn dial_hour(hour: int) -> int {
    if hour % 12 == 0 {
        12
    } else {
        hour % 12
    }
}

/// The name of the day of a time.
pub open spec fn weekday_of(time: LocalTime) -> Seq<char> {
    name_at(day_names(), time.day_of_week as int)
}

/// The name of the month of a time.
pub open spec fn month_of(time: LocalTime) -> Seq<char> {
    name_at(
        month_names(),
        if time.month == 0 {
            0
        } else {
            time.month - 1
        },
    )
}

/// The half of the day of a time.
pub open spec fn half_of(time: LocalTime) -> Seq<char> {
    if time.hour < 12 {
        "AM"@
    } else {
        "PM"@
    }
}

/// A time as it is shown in the language that the program is written in.
pub open spec fn source_time(time: LocalTime) -> Seq<char> {
    weekday_of(time) + " "@ + month_of(time) + " "@ + two_digits(time.day as int) + ", "@
        + text::decimal(time.year as int) + " - "@ + text::decimal(dial_hour(time.hour as int))
        + ":"@ + two_digits(time.minute as int) + " "@ + half_of(time)
}

/// A template for times with its names replaced, one after the other.
pub open spec fn worded_time(template: Seq<char>, time: LocalTime, wording: Wording) -> Seq<char> {
    let a = wording::replaced(template, "{weekday}"@, wording.said(weekday_of(time)));
    let b = wording::replaced(a, "{month}"@, wording.said(month_of(time)));
    let c = wording::replaced(b, "{day}"@, two_digits(time.day as int));
    let d = wording::replaced(c, "{year}"@, text::decimal(time.year as int));
    let e = wording::replaced(d, "{hour}"@, text::decimal(dial_hour(time.hour as int)));
    let f = wording::replaced(e, "{minute}"@, two_digits(time.minute as int));
    wording::replaced(f, "{meridiem}"@, wording.said(half_of(time)))
}

/// A time as it is shown.
pub open spec fn shown_time(time: LocalTime, wording: Wording) -> Seq<char> {
    if wording.is_source() {
        source_time(time)
    } else {
        worded_time(
            wording.said("{weekday} {month} {day}, {year} - {hour}:{minute} {meridiem}"@),
            time,
            wording,
        )
    }
}

fn pick(names: &[&str], i: usize, Ghost(all): Ghost<Seq<Seq<char>>>) -> (r: String)
    requires
        names@.len() == all.len(),
        forall|k: int| 0 <= k < all.len() ==> (#[trigger] names@[k])@ == all[k],
    ensures
        r@ == name_at(all, i as int),
{
    if i < names.len() {
        names[i].to_owned()
    } else {
        "Unknown".to_owned()
    }
}

fn padded(n: u16) -> (r: String)
    ensures
        r@ == two_digits(n as int),
{
    let digits = text::decimal_u64(n as u64);
    if n < 10 {
        text::cat2("0", digits.as_str())
    } else {
        digits
    }
}

/// Finds the names of the day and the month of a time.
fn names_of(time: &LocalTime) -> (r: (String, String))
    ensures
        r.0@ == weekday_of(*time),
        r.1@ == month_of(*time),
{
    let days: Vec<&str> = vec![
        "Sunday", "Monday", "Tuesday", "Wednesday", "Thursday", "Friday", "Saturday",
    ];
    let months: Vec<&str> = vec![
        "January", "February", "March", "April", "May", "June", "July", "August", "September",
        "October", "November", "December",
    ];
    proof {
        assert forall|k: int| 0 <= k < day_names().len() implies (#[trigger] days@[k])@
            == day_names()[k] by {}
        assert forall|k: int| 0 <= k < month_names().len() implies (#[trigger] months@[k])@
            == month_names()[k] by {}
    }
    let weekday = pick(days.as_slice(), time.day_of_week as usize, Ghost(day_names()));
    let month_index: usize = if time.month == 0 {
        0
    } else {
        (time.month - 1) as usize
    };
    let month = pick(months.as_slice(), month_index, Ghost(month_names()));
    (weekday, month)
}

/// Shows a time.
pub fn format_title_timestamp(time: &LocalTime, wording: &Wording) -> (r: String)
    ensures
        r@ == shown_time(*time, *wording),
{
    let (weekday, month): (String, String) = names_of(time);
    let hour: u16 = if time.hour % 12 == 0 {
        12
    } else {
        time.hour % 12
    };
    let half = if time.hour < 12 {
        "AM"
    } else {
        "PM"
    };
    let day_text = padded(time.day);
    let year_text = text::decimal_u64(time.year as u64);
    let hour_text = text::decimal_u64(hour as u64);
    let minute_text = padded(time.minute);
    if wording.phrases.len() == 0 {
        let mut out = text::cat7(
            weekday.as_str(),
            " ",
            month.as_str(),
            " ",
            day_text.as_str(),
            ", ",
            year_text.as_str(),
        );
        out.append(" - ");
        out.append(hour_text.as_str());
        out.append(":");
        out.append(minute_text.as_str());
        out.append(" ");
        out.append(half);
        return out;
    }
    let template = wording.say("{weekday} {month} {day}, {year} - {hour}:{minute} {meridiem}");
    let a = wording::replace_all(
        template.as_str(),
        "{weekday}",
        wording.say(weekday.as_str()).as_str(),
    );
    let b = wording::replace_all(a.as_str(), "{month}", wording.say(month.as_str()).as_str());
    let c = wording::replace_all(b.as_str(), "{day}", day_text.as_str());
    let d = wording::replace_all(c.as_str(), "{year}", year_text.as_str());
    let e = wording::replace_all(d.as_str(), "{hour}", hour_text.as_str());
    let f = wording::replace_all(e.as_str(), "{minute}", minute_text.as_str());
    wording::replace_all(f.as_str(), "{meridiem}", wording.say(half).as_str())
}

// ---------------------------------------------------------------------------
// The title
// ---------------------------------------------------------------------------

/// What the program is called.
#[derive(Debug, PartialEq, Eq)]
pub struct ProgramName {
    pub name: String,
    pub version: String,
    pub build_time: String,
}

/// What is used, as it is shown.
pub open spec fn shown_metrics(cpu_percent: Option<u32>, memory: Option<Seq<char>>) -> Seq<char> {
    match (cpu_percent, memory) {
        (None, None) => Seq::empty(),
        (Some(p), None) => " | "@ + text::decimal(p as int) + "%"@,
        (None, Some(m)) => " | "@ + m,
        (Some(p), Some(m)) => " | "@ + text::decimal(p as int) + "%"@ + " "@ + m,
    }
}

/// The title of the window.
pub open spec fn title_of(
    program: ProgramName,
    show_build_time: bool,
    cpu_percent: Option<u32>,
    memory: Option<Seq<char>>,
    time: LocalTime,
    wording: Wording,
) -> Seq<char> {
    program.name@ + " "@ + program.version@ + (if show_build_time {
        " ("@ + program.build_time@ + ")"@
    } else {
        Seq::empty()
    }) + shown_metrics(cpu_percent, memory) + " | "@ + shown_time(time, wording)
}

/// The title of the window.
pub fn window_title_text_with_metrics(
    wording: &Wording,
    program: &ProgramName,
    show_build_timestamp: bool,
    cpu_percent: Option<u32>,
    memory_text: Option<String>,
    time: &LocalTime,
) -> (r: String)
    ensures
        r@ == title_of(
            *program,
            show_build_timestamp,
            cpu_percent,
            match memory_text {
                Some(m) => Some(m@),
                None => None,
            },
            *time,
            *wording,
        ),
{
    let build = if show_build_timestamp {
        text::cat3(" (", program.build_time.as_str(), ")")
    } else {
        String::new()
    };
    let metrics: String = match (cpu_percent, &memory_text) {
        (None, None) => String::new(),
        (Some(p), None) => text::cat3(" | ", text::decimal_u64(p as u64).as_str(), "%"),
        (None, Some(m)) => text::cat2(" | ", m.as_str()),
        (Some(p), Some(m)) => text::cat5(
            " | ",
            text::decimal_u64(p as u64).as_str(),
            "%",
            " ",
            m.as_str(),
        ),
    };
    proof {
        assert(build@ =~= (if show_build_timestamp {
            " ("@ + program.build_time@ + ")"@
        } else {
            Seq::empty()
        }));
        assert(metrics@ =~= shown_metrics(
            cpu_percent,
            match memory_text {
                Some(m) => Some(m@),
                None => None,
            },
        ));
    }
    text::cat7(
        program.name.as_str(),
        " ",
        program.version.as_str(),
        build.as_str(),
        metrics.as_str(),
        " | ",
        format_title_timestamp(time, wording).as_str(),
    )
}

// ---------------------------------------------------------------------------
// Processes
// ---------------------------------------------------------------------------

/// A time of the file system from its two halves.
pub fn file_time_100ns(high: u32, low: u32) -> (r: u64)
    ensures
        r == high * 0x1_0000_0000 + low,
{
    (high as u64) * 0x1_0000_0000 + low as u64
}

/// A set of processes that holds the children of all that it holds.
pub open spec fn holds_children(entries: Seq<(u32, u32)>, set: Set<u32>) -> bool {
    forall|i: int|
        0 <= i < entries.len() && set.contains((#[trigger] entries[i]).1) ==> set.contains(
            entries[i].0,
        )
}

fn contains_number(list: &[u32], n: u32) -> (r: bool)
    ensures
        r == list@.contains(n),
{
    let mut i: usize = 0;
    while i < list.len()
        invariant
            i <= list.len(),
            forall|k: int| 0 <= k < i ==> list@[k] != n,
        decreases list.len() - i,
    {
        if list[i] == n {
            return true;
        }
        i += 1;
    }
    false
}

/// The numbers of the entries that a list does not hold.
spec fn left_out(entries: Seq<(u32, u32)>, list: Seq<u32>, n: int) -> nat
    decreases n,
{
    if n <= 0 {
        0
    } else {
        left_out(entries, list, n - 1) + (if list.contains(entries[n - 1].0) {
            0nat
        } else {
            1nat
        })
    }
}

proof fn lemma_left_out_shrinks(entries: Seq<(u32, u32)>, list: Seq<u32>, pid: u32, n: int, i: int)
    requires
        0 <= n <= entries.len(),
        0 <= i < entries.len(),
        entries[i].0 == pid,
        !list.contains(pid),
    ensures
        left_out(entries, list.push(pid), n) <= left_out(entries, list, n),
        i < n ==> left_out(entries, list.push(pid), n) < left_out(entries, list, n),
    decreases n,
{
    if n > 0 {
        lemma_left_out_shrinks(entries, list, pid, n - 1, i);
        let longer = list.push(pid);
        assert(longer[list.len() as int] == pid);
        assert forall|x: u32| list.contains(x) implies longer.contains(x) by {
            let k = choose|k: int| 0 <= k < list.len() && list[k] == x;
            assert(longer[k] == x);
        }
    }
}

/// A process with all that it has started, directly or not: the smallest set of
/// processes that holds it and the children of all that it holds.
pub fn descendant_process_ids(root_pid: u32, entries: &[(u32, u32)]) -> (r: Vec<u32>)
    ensures
        r@.no_duplicates(),
        r@.contains(root_pid),
        holds_children(entries@, r@.to_set()),
        forall|set: Set<u32>|
            set.contains(root_pid) && #[trigger] holds_children(entries@, set)
                ==> r@.to_set().subset_of(set),
{
    let mut found: Vec<u32> = Vec::new();
    found.push(root_pid);
    proof {
        assert(found@[0] == root_pid);
    }
    loop
        invariant
            found@.no_duplicates(),
            found@.contains(root_pid),
            forall|set: Set<u32>|
                set.contains(root_pid) && #[trigger] holds_children(entries@, set)
                    ==> found@.to_set().subset_of(set),
        ensures
            holds_children(entries@, found@.to_set()),
        decreases left_out(entries@, found@, entries@.len() as int),
    {
        let before: usize = found.len();
        let ghost start = found@;
        let mut i: usize = 0;
        while i < entries.len()
            invariant
                i <= entries.len(),
                before <= found@.len(),
                found@.no_duplicates(),
                found@.contains(root_pid),
                forall|set: Set<u32>|
                    set.contains(root_pid) && #[trigger] holds_children(entries@, set)
                        ==> found@.to_set().subset_of(set),
                left_out(entries@, found@, entries@.len() as int) <= left_out(
                    entries@,
                    start,
                    entries@.len() as int,
                ),
                found@.len() > before ==> left_out(entries@, found@, entries@.len() as int)
                    < left_out(entries@, start, entries@.len() as int),
                found@.len() == before ==> found@ == start,
                found@.len() == before ==> forall|k: int|
                    0 <= k < i && found@.contains((#[trigger] entries@[k]).1) ==> found@.contains(
                        entries@[k].0,
                    ),
            decreases entries.len() - i,
        {
            let (pid, parent): (u32, u32) = entries[i];
            if contains_number(found.as_slice(), parent) && !contains_number(
                found.as_slice(),
                pid,
            ) {
                let ghost old_found = found@;
                proof {
                    lemma_left_out_shrinks(
                        entries@,
                        found@,
                        pid,
                        entries@.len() as int,
                        i as int,
                    );
                    assert(entries@[i as int].0 == pid);
                }
                found.push(pid);
                proof {
                    let k = choose|k: int| 0 <= k < old_found.len() && old_found[k] == root_pid;
                    assert(found@[k] == root_pid);
                    assert forall|set: Set<u32>|
                        set.contains(root_pid) && #[trigger] holds_children(
                            entries@,
                            set,
                        ) implies found@.to_set().subset_of(set) by {
                        assert(old_found.to_set().subset_of(set));
                        assert(old_found.to_set().contains(parent));
                        assert(set.contains(entries@[i as int].1));
                        assert(set.contains(pid));
                        assert forall|x: u32| found@.to_set().contains(x) implies set.contains(
                            x,
                        ) by {
                            if x != pid {
                                let m = choose|m: int| 0 <= m < found@.len() && found@[m] == x;
                                assert(old_found[m] == x);
                                assert(old_found.to_set().contains(x));
                            }
                        }
                    }
                }
            }
            i += 1;
        }
        if found.len() == before {
            proof {
                assert forall|k: int|
                    0 <= k < entries@.len() && found@.to_set().contains(
                        (#[trigger] entries@[k]).1,
                    ) implies found@.to_set().contains(entries@[k].0) by {
                    assert(found@.contains(entries@[k].1));
                    assert(found@.contains(entries@[k].0));
                }
            }
            break;
        }
    }
    found
}

/// A process, told from others that had its number before.
#[derive(Clone, Copy, Debug, PartialEq, Eq, Structural)]
pub struct ProcessIdentity {
    pub pid: u32,
    pub creation_time_100ns: u64,
}

/// What a process uses.
#[derive(Clone, Copy, Debug, PartialEq, Eq, Structural)]
pub struct ProcessResourceSample {
    pub identity: ProcessIdentity,
    pub cpu_time_100ns: u64,
    pub private_working_set_bytes: Option<u64>,
}

/// The time that a process had used, as it was noted last among the first `n`.
pub open spec fn noted_time(
    previous: Seq<(ProcessIdentity, u64)>,
    identity: ProcessIdentity,
    n: int,
) -> Option<u64>
    decreases n,
{
    if n <= 0 {
        None
    } else if previous[n - 1].0 == identity {
        Some(previous[n - 1].1)
    } else {
        noted_time(previous, identity, n - 1)
    }
}

/// The difference of two times, if it is positive.
pub open spec fn time_gained(now: u64, before: u64) -> nat {
    if now >= before {
        (now - before) as nat
    } else {
        0
    }
}

/// The time that the first `n` processes have used since: those that were not there
/// before count nothing.
pub open spec fn time_used(
    previous: Seq<(ProcessIdentity, u64)>,
    current: Seq<ProcessResourceSample>,
    n: int,
) -> nat
    decreases n,
{
    if n <= 0 {
        0
    } else {
        time_used(previous, current, n - 1) + (match noted_time(
            previous,
            current[n - 1].identity,
            previous.len() as int,
        ) {
            Some(before) => time_gained(current[n - 1].cpu_time_100ns, before),
            None => 0nat,
        })
    }
}

fn find_noted_time(previous: &[(ProcessIdentity, u64)], identity: ProcessIdentity) -> (r: Option<
    u64,
>)
    ensures
        r == noted_time(previous@, identity, previous@.len() as int),
{
    let mut i: usize = previous.len();
    while i > 0
        invariant
            i <= previous.len(),
            noted_time(previous@, identity, previous@.len() as int) == noted_time(
                previous@,
                identity,
                i as int,
            ),
        decreases i,
    {
        if previous[i - 1].0 == identity {
            return Some(previous[i - 1].1);
        }
        i -= 1;
    }
    None
}

/// The time that processes have used since they were noted.
pub fn process_cpu_delta_100ns(
    previous: &[(ProcessIdentity, u64)],
    current: &[ProcessResourceSample],
) -> (r: u64)
    ensures
        r == arith::min_int(
            time_used(previous@, current@, current@.len() as int) as int,
            u64::MAX as int,
        ),
{
    let mut total: u64 = 0;
    let mut i: usize = 0;
    while i < current.len()
        invariant
            i <= current.len(),
            total == arith::min_int(
                time_used(previous@, current@, i as int) as int,
                u64::MAX as int,
            ),
        decreases current.len() - i,
    {
        if let Some(before) = find_noted_time(previous, current[i].identity) {
            total = total.saturating_add(current[i].cpu_time_100ns.saturating_sub(before));
        }
        i += 1;
    }
    total
}

/// The sum of what is known of the first `n` processes; none where nothing is.
pub open spec fn memory_used(samples: Seq<ProcessResourceSample>, n: int) -> Option<nat>
    decreases n,
{
    if n <= 0 {
        None
    } else {
        match (memory_used(samples, n - 1), samples[n - 1].private_working_set_bytes) {
            (Some(sum), Some(bytes)) => Some(sum + bytes as nat),
            (None, Some(bytes)) => Some(bytes as nat),
            (known, None) => known,
        }
    }
}

/// The memory that processes use, as far as it is known.
pub fn process_tree_private_working_set_bytes(samples: &[ProcessResourceSample]) -> (r: Option<u64>)
    ensures
        match memory_used(samples@, samples@.len() as int) {
            None => r is None,
            Some(sum) => r matches Some(found) && found == arith::min_int(
                sum as int,
                u64::MAX as int,
            ),
        },
{
    let mut total: Option<u64> = None;
    let mut i: usize = 0;
    while i < samples.len()
        invariant
            i <= samples.len(),
            match memory_used(samples@, i as int) {
                None => total is None,
                Some(sum) => total matches Some(found) && found == arith::min_int(
                    sum as int,
                    u64::MAX as int,
                ),
            },
        decreases samples.len() - i,
    {
        if let Some(bytes) = samples[i].private_working_set_bytes {
            total = match total {
                Some(sum) => Some(sum.saturating_add(bytes)),
                None => Some(bytes),
            };
        }
        i += 1;
    }
    total
}

// ---------------------------------------------------------------------------
// How times and loads are shown
// ---------------------------------------------------------------------------

/// Every hour has its place on the dial, from one to twelve, in the half of the day that it is
/// in.
pub proof fn lemma_hours_on_the_dial(time: LocalTime)
    requires
        time.hour < 24,
    ensures
        1 <= dial_hour(time.hour as int) <= 12,
        half_of(time) == "AM"@ ==> time.hour == dial_hour(time.hour as int) % 12,
        half_of(time) == "PM"@ ==> time.hour == dial_hour(time.hour as int) % 12 + 12,
        half_of(time) == "AM"@ || half_of(time) == "PM"@,
{
    reveal_strlit("AM");
    reveal_strlit("PM");
    assert("AM"@[0] == 'A');
    assert("PM"@[0] == 'P');
}

/// Days and minutes take two digits, and can be read back.
pub proof fn lemma_two_digits(n: int)
    requires
        0 <= n < 100,
    ensures
        two_digits(n).len() == 2,
        text::parsed_int(two_digits(n)) == Some(n),
{
    reveal_strlit("0");
    let shown = two_digits(n);
    if n < 10 {
        let d: nat = 0;
        text::lemma_written_in_tens(d, n as nat);
        let one = text::decimal(n);
        assert(shown =~= seq!['0', one[0]]);
        assert(shown.drop_last() =~= seq!['0']);
        assert(seq!['0'].drop_last() =~= Seq::<char>::empty());
        assert(text::digits_value(seq!['0']) == 0) by {
            reveal_with_fuel(text::digits_value, 2);
        }
        assert(text::digits_value(shown) == n);
        assert(text::all_digits(shown));
    } else {
        text::lemma_written_in_tens((n / 10) as nat, (n % 10) as nat);
        let d: nat = 0;
        text::lemma_written_in_tens(d, (n / 10) as nat);
        assert(10 * ((n / 10) as nat) + ((n % 10) as nat) == n);
        text::lemma_decimal_round_trip(n);
    }
}

/// The days are named from Sunday on and the months from January on; what is neither is
/// unknown.
pub proof fn lemma_days_and_months(time: LocalTime)
    ensures
        time.day_of_week == 0 ==> weekday_of(time) == "Sunday"@,
        time.day_of_week == 1 ==> weekday_of(time) == "Monday"@,
        time.day_of_week == 2 ==> weekday_of(time) == "Tuesday"@,
        time.day_of_week == 3 ==> weekday_of(time) == "Wednesday"@,
        time.day_of_week == 4 ==> weekday_of(time) == "Thursday"@,
        time.day_of_week == 5 ==> weekday_of(time) == "Friday"@,
        time.day_of_week == 6 ==> weekday_of(time) == "Saturday"@,
        time.day_of_week > 6 ==> weekday_of(time) == "Unknown"@,
        time.month == 1 ==> month_of(time) == "January"@,
        time.month == 2 ==> month_of(time) == "February"@,
        time.month == 3 ==> month_of(time) == "March"@,
        time.month == 4 ==> month_of(time) == "April"@,
        time.month == 5 ==> month_of(time) == "May"@,
        time.month == 6 ==> month_of(time) == "June"@,
        time.month == 7 ==> month_of(time) == "July"@,
        time.month == 8 ==> month_of(time) == "August"@,
        time.month == 9 ==> month_of(time) == "September"@,
        time.month == 10 ==> month_of(time) == "October"@,
        time.month == 11 ==> month_of(time) == "November"@,
        time.month == 12 ==> month_of(time) == "December"@,
        time.month > 12 ==> month_of(time) == "Unknown"@,
{
}

/// A time in the language of the source names the day first, then the month, the day and the
/// year, and the time of the day behind a dash.
pub proof fn lemma_parts_of_a_time(time: LocalTime, wording: Wording)
    requires
        wording.is_source(),
    ensures
        ({
            let date = weekday_of(time) + " "@ + month_of(time) + " "@ + two_digits(time.day as int)
                + ", "@ + text::decimal(time.year as int);
            let clock = text::decimal(dial_hour(time.hour as int)) + ":"@ + two_digits(
                time.minute as int,
            ) + " "@ + half_of(time);
            shown_time(time, wording) == date + " - "@ + clock
        }),
{
    let date = weekday_of(time) + " "@ + month_of(time) + " "@ + two_digits(time.day as int)
        + ", "@ + text::decimal(time.year as int);
    let clock = text::decimal(dial_hour(time.hour as int)) + ":"@ + two_digits(time.minute as int)
        + " "@ + half_of(time);
    assert(shown_time(time, wording) =~= date + " - "@ + clock);
}

/// The title begins with the name and the version, ends with the time, and leaves out what is
/// not known.
pub proof fn lemma_parts_of_the_title(
    program: ProgramName,
    show_build_time: bool,
    cpu_percent: Option<u32>,
    memory: Option<Seq<char>>,
    time: LocalTime,
    wording: Wording,
)
    ensures
        ({
            let title = title_of(program, show_build_time, cpu_percent, memory, time, wording);
            &&& text::has_prefix(title, program.name@ + " "@ + program.version@)
            &&& text::has_suffix(title, " | "@ + shown_time(time, wording))
            &&& !show_build_time && cpu_percent is None && memory is None ==> title == program.name@
                + " "@ + program.version@ + " | "@ + shown_time(time, wording)
            &&& cpu_percent matches Some(p) ==> text::has_infix(
                title,
                " | "@ + text::decimal(p as int) + "%"@,
            )
            &&& memory matches Some(m) ==> text::has_infix(title, m)
            &&& show_build_time ==> text::has_infix(title, " ("@ + program.build_time@ + ")"@)
        }),
{
    let title = title_of(program, show_build_time, cpu_percent, memory, time, wording);
    let front = program.name@ + " "@ + program.version@;
    let built = if show_build_time {
        " ("@ + program.build_time@ + ")"@
    } else {
        Seq::empty()
    };
    let load = shown_metrics(cpu_percent, memory);
    let end = " | "@ + shown_time(time, wording);
    let none = Seq::<char>::empty();
    assert(text::has_prefix(title, front)) by {
        assert(title =~= front + (built + load + end));
        text::lemma_stands_in(none, front, built + load + end);
    }
    assert(text::has_suffix(title, end)) by {
        assert(title =~= (front + built + load) + end);
        text::lemma_stands_in(front + built + load, end, none);
    }
    if show_build_time {
        assert(title =~= front + built + (load + end));
        text::lemma_stands_in(front, built, load + end);
    } else if cpu_percent is None && memory is None {
        assert(title =~= front + " | "@ + shown_time(time, wording));
    }
    lemma_load_in_the_title(front + built, cpu_percent, memory, end);
    assert(title =~= (front + built) + load + end);
}

proof fn lemma_load_in_the_title(
    front: Seq<char>,
    cpu_percent: Option<u32>,
    memory: Option<Seq<char>>,
    end: Seq<char>,
)
    ensures
        ({
            let title = front + shown_metrics(cpu_percent, memory) + end;
            &&& cpu_percent matches Some(p) ==> text::has_infix(
                title,
                " | "@ + text::decimal(p as int) + "%"@,
            )
            &&& memory matches Some(m) ==> text::has_infix(title, m)
        }),
{
    let title = front + shown_metrics(cpu_percent, memory) + end;
    match cpu_percent {
        Some(p) => {
            let shown = " | "@ + text::decimal(p as int) + "%"@;
            match memory {
                Some(m) => {
                    assert(title =~= front + shown + (" "@ + m + end));
                    text::lemma_stands_in(front, shown, " "@ + m + end);
                    assert(title =~= (front + shown + " "@) + m + end);
                    text::lemma_stands_in(front + shown + " "@, m, end);
                },
                None => {
                    assert(title =~= front + shown + end);
                    text::lemma_stands_in(front, shown, end);
                },
            }
        },
        None => {
            if let Some(m) = memory {
                assert(title =~= (front + " | "@) + m + end);
                text::lemma_stands_in(front + " | "@, m, end);
            }
        },
    }
}

/// The time that was noted for a process is that of its last note; there is one where it was
/// noted at all.
pub proof fn lemma_last_note_counts(
    previous: Seq<(ProcessIdentity, u64)>,
    identity: ProcessIdentity,
    n: int,
)
    requires
        0 <= n <= previous.len(),
    ensures
        match noted_time(previous, identity, n) {
            None => forall|i: int| 0 <= i < n ==> (#[trigger] previous[i]).0 != identity,
            Some(time) => exists|i: int|
                0 <= i < n && #[trigger] previous[i] == (identity, time) && forall|k: int|
                    i < k < n ==> (#[trigger] previous[k]).0 != identity,
        },
    decreases n,
{
    if n > 0 {
        lemma_last_note_counts(previous, identity, n - 1);
        if previous[n - 1].0 == identity {
            assert(previous[n - 1] == (identity, previous[n - 1].1));
        } else if let Some(time) = noted_time(previous, identity, n - 1) {
            let i = choose|i: int|
                0 <= i < n - 1 && #[trigger] previous[i] == (identity, time) && forall|k: int|
                    i < k < n - 1 ==> (#[trigger] previous[k]).0 != identity;
            assert(previous[i] == (identity, time));
        }
    }
}

/// The time that processes have used adds up: a process adds what it gained since its note, and
/// nothing where it has none or went back.
pub proof fn lemma_times_add_up(
    previous: Seq<(ProcessIdentity, u64)>,
    current: Seq<ProcessResourceSample>,
    more: ProcessResourceSample,
)
    ensures
        ({
            let n = current.len() as int;
            let before = time_used(previous, current, n);
            let after = time_used(previous, current.push(more), n + 1);
            match noted_time(previous, more.identity, previous.len() as int) {
                None => after == before,
                Some(noted) => if more.cpu_time_100ns <= noted {
                    after == before
                } else {
                    after == before + more.cpu_time_100ns - noted
                },
            }
        }),
        time_used(previous, Seq::empty(), 0) == 0,
{
    lemma_times_of_front(previous, current, more, current.len() as int);
}

proof fn lemma_times_of_front(
    previous: Seq<(ProcessIdentity, u64)>,
    current: Seq<ProcessResourceSample>,
    more: ProcessResourceSample,
    n: int,
)
    requires
        0 <= n <= current.len(),
    ensures
        time_used(previous, current.push(more), n) == time_used(previous, current, n),
    decreases n,
{
    if n > 0 {
        lemma_times_of_front(previous, current, more, n - 1);
    }
}

/// The memory of processes adds up, as far as it is known; it is known where that of any is.
pub proof fn lemma_memory_adds_up(samples: Seq<ProcessResourceSample>, more: ProcessResourceSample)
    ensures
        ({
            let n = samples.len() as int;
            let known = memory_used(samples, n);
            let sum: nat = match known {
                Some(all) => all,
                None => 0,
            };
            memory_used(samples.push(more), n + 1) == (match more.private_working_set_bytes {
                Some(bytes) => Some((sum + bytes) as nat),
                None => known,
            })
        }),
        memory_used(samples, samples.len() as int) is None <==> forall|i: int|
            0 <= i < samples.len() ==> (#[trigger] samples[i]).private_working_set_bytes is None,
{
    lemma_memory_of_front(samples, more, samples.len() as int);
}

proof fn lemma_memory_of_front(
    samples: Seq<ProcessResourceSample>,
    more: ProcessResourceSample,
    n: int,
)
    requires
        0 <= n <= samples.len(),
    ensures
        memory_used(samples.push(more), n) == memory_used(samples, n),
        memory_used(samples, n) is None <==> forall|i: int|
            0 <= i < n ==> (#[trigger] samples[i]).private_working_set_bytes is None,
    decreases n,
{
    if n > 0 {
        lemma_memory_of_front(samples, more, n - 1);
    }
}

} // verus!
