//! What the program is asked to do by its arguments.

use crate::search_worker::{SearchThreadMode, ThreadBounds};
use crate::settings_model::SettingsPage;
use crate::text;
use vstd::prelude::*;

verus! {

/// The place of the page of pattern scoring in the navigation of the settings.
pub const PATTERN_SCORING_NAV_INDEX: i32 = 3;

/// The page at a place of the navigation. `pages` holds the pages in their order; the page
/// of pattern scoring has its place whatever `pages` says, and a place without a page
/// stands for the general one.
pub open spec fn page_at(index: i32, pages: Seq<SettingsPage>) -> SettingsPage {
    if index == PATTERN_SCORING_NAV_INDEX {
        SettingsPage::PatternScoring
    } else if 0 <= index < pages.len() {
        pages[index as int]
    } else {
        SettingsPage::General
    }
}

/// Finds the page at a place of the navigation.
pub fn settings_page_from_nav_index(index: i32, pages: &[SettingsPage]) -> (r: SettingsPage)
    ensures
        r == page_at(index, pages@),
{
    if index == PATTERN_SCORING_NAV_INDEX {
        return SettingsPage::PatternScoring;
    }
    if index >= 0 && (index as usize) < pages.len() {
        pages[index as usize]
    } else {
        SettingsPage::General
    }
}

/// What the program is asked to do.
#[derive(Debug, PartialEq, Eq)]
pub struct StartupOptions {
    pub open_settings: bool,
    pub settings_page: Option<SettingsPage>,
    pub show_main: bool,
    pub hide_existing: bool,
    pub debug_search: Option<String>,
    pub debug_limit: usize,
    pub debug_output: Option<String>,
    pub bench_search: Option<String>,
    pub bench_threads: usize,
    pub bench_runs: usize,
}

/// What the program is asked to do, with its texts.
pub struct OptionsModel {
    pub open_settings: bool,
    pub settings_page: Option<SettingsPage>,
    pub show_main: bool,
    pub hide_existing: bool,
    pub debug_search: Option<Seq<char>>,
    pub debug_limit: usize,
    pub debug_output: Option<Seq<char>>,
    pub bench_search: Option<Seq<char>>,
    pub bench_threads: usize,
    pub bench_runs: usize,
}

impl View for StartupOptions {
    type V = OptionsModel;

    open spec fn view(&self) -> OptionsModel {
        OptionsModel {
            open_settings: self.open_settings,
            settings_page: self.settings_page,
            show_main: self.show_main,
            hide_existing: self.hide_existing,
            debug_search: text::optional(self.debug_search),
            debug_limit: self.debug_limit,
            debug_output: text::optional(self.debug_output),
            bench_search: text::optional(self.bench_search),
            bench_threads: self.bench_threads,
            bench_runs: self.bench_runs,
        }
    }
}

/// Nothing in particular.
pub open spec fn no_options() -> OptionsModel {
    OptionsModel {
        open_settings: false,
        settings_page: None,
        show_main: false,
        hide_existing: false,
        debug_search: None,
        debug_limit: 0,
        debug_output: None,
        bench_search: None,
        bench_threads: 0,
        bench_runs: 0,
    }
}

impl Default for StartupOptions {
    fn default() -> (r: StartupOptions)
        ensures
            r@ == no_options(),
    {
        StartupOptions {
            open_settings: false,
            settings_page: None,
            show_main: false,
            hide_existing: false,
            debug_search: None,
            debug_limit: 0,
            debug_output: None,
            bench_search: None,
            bench_threads: 0,
            bench_runs: 0,
        }
    }
}

/// The query that stands for measuring a query that grows.
pub fn refinement_benchmark_sentinel() -> (r: &'static str)
    ensures
        r@ == "__refinement_chr_chro_chrom__"@,
{
    "__refinement_chr_chro_chrom__"
}

// ---------------------------------------------------------------------------
// The number of threads
// ---------------------------------------------------------------------------

/// The setting that a text stands for: by itself, all, or a number.
pub open spec fn thread_mode(value: Seq<char>) -> SearchThreadMode {
    let plain = text::trimmed(value);
    if text::same_ignoring_ascii_case(plain, "max"@) {
        SearchThreadMode::Maximum
    } else {
        match text::parsed_nat(plain) {
            Some(n) => if n <= usize::MAX {
                SearchThreadMode::Manual(n as usize)
            } else {
                SearchThreadMode::Auto
            },
            None => SearchThreadMode::Auto,
        }
    }
}

/// Reads the setting for the number of threads.
pub fn parse_search_threads(value: &str) -> (r: SearchThreadMode)
    ensures
        r == thread_mode(value@),
{
    let chars = text::chars_of(value);
    let plain = text::trim_chars(chars.as_slice());
    let max = text::chars_of("max");
    if text::equal_ignoring_ascii_case(plain, max.as_slice()) {
        return SearchThreadMode::Maximum;
    }
    match text::parse_usize(plain) {
        Some(n) => SearchThreadMode::Manual(n),
        None => SearchThreadMode::Auto,
    }
}

// ---------------------------------------------------------------------------
// Arguments
// ---------------------------------------------------------------------------

/// An argument is a switch: behind two hyphens or a slash, whatever the case.
pub open spec fn is_switch(argument: Seq<char>, hyphens: Seq<char>, slash: Seq<char>) -> bool {
    let plain = text::ascii_lower_seq(argument);
    plain == hyphens || plain == slash
}

/// A number in an argument.
pub open spec fn size_in(argument: Seq<char>) -> Option<usize> {
    match text::parsed_nat(argument) {
        Some(n) => if n <= usize::MAX {
            Some(n as usize)
        } else {
            None
        },
        None => None,
    }
}

/// A signed number in an argument.
pub open spec fn page_in(argument: Seq<char>) -> Option<i32> {
    match text::parsed_int(argument) {
        Some(n) => if i32::MIN <= n <= i32::MAX {
            Some(n as i32)
        } else {
            None
        },
        None => None,
    }
}

/// What arguments are read against: whether the program has its debug tools, the pages of
/// its settings, and the number of threads it can have.
pub struct BuildModel {
    pub debug_tools: bool,
    pub pages: Seq<SettingsPage>,
    pub bounds: ThreadBounds,
}

/// What an argument and the one behind it ask for, and how many of them are used.
pub open spec fn step(
    options: OptionsModel,
    argument: Seq<char>,
    next: Option<Seq<char>>,
    build: BuildModel,
) -> (OptionsModel, int) {
    if is_switch(argument, "--settings"@, "/settings"@) {
        (OptionsModel { open_settings: true, ..options }, 1)
    } else if is_switch(argument, "--settings-general"@, "/settings-general"@) {
        (
            OptionsModel {
                open_settings: true,
                settings_page: Some(SettingsPage::General),
                ..options
            },
            1,
        )
    } else if is_switch(argument, "--settings-page"@, "/settings-page"@) {
        match next {
            Some(value) => match page_in(value) {
                Some(page) => (
                    OptionsModel {
                        open_settings: true,
                        settings_page: Some(page_at(page, build.pages)),
                        ..options
                    },
                    2,
                ),
                None => (OptionsModel { open_settings: true, ..options }, 1),
            },
            None => (OptionsModel { open_settings: true, ..options }, 1),
        }
    } else if is_switch(argument, "--show"@, "/show"@) {
        (OptionsModel { show_main: true, hide_existing: false, ..options }, 1)
    } else if is_switch(argument, "--hidden"@, "/hidden"@) || is_switch(
        argument,
        "--hide"@,
        "/hide"@,
    ) {
        (OptionsModel { show_main: false, hide_existing: true, ..options }, 1)
    } else if !build.debug_tools {
        (options, 1)
    } else if is_switch(argument, "--debug-search"@, "/debug-search"@) {
        match next {
            Some(value) => (OptionsModel { debug_search: Some(value), ..options }, 2),
            None => (options, 1),
        }
    } else if is_switch(argument, "--debug-limit"@, "/debug-limit"@) {
        match next {
            Some(value) => match size_in(value) {
                Some(n) => (OptionsModel { debug_limit: n, ..options }, 2),
                None => (options, 1),
            },
            None => (options, 1),
        }
    } else if is_switch(argument, "--debug-output"@, "/debug-output"@) {
        match next {
            Some(value) => (OptionsModel { debug_output: Some(value), ..options }, 2),
            None => (options, 1),
        }
    } else if is_switch(argument, "--bench-refinement"@, "/bench-refinement"@) {
        (OptionsModel { bench_search: Some("__refinement_chr_chro_chrom__"@), ..options }, 1)
    } else if is_switch(argument, "--bench-search"@, "/bench-search"@) {
        match next {
            Some(value) => (OptionsModel { bench_search: Some(value), ..options }, 2),
            None => (options, 1),
        }
    } else if is_switch(argument, "--threads"@, "/threads"@) {
        match next {
            Some(value) => (
                OptionsModel { bench_threads: thread_mode(value).resolved(build.bounds), ..options },
                2,
            ),
            None => (options, 1),
        }
    } else if is_switch(argument, "--runs"@, "/runs"@) {
        match next {
            Some(value) => match size_in(value) {
                Some(n) => (OptionsModel { bench_runs: n, ..options }, 2),
                None => (options, 1),
            },
            None => (options, 1),
        }
    } else {
        (options, 1)
    }
}

/// The argument at a place, where there is one.
pub open spec fn argument_at(arguments: Seq<Seq<char>>, i: int) -> Option<Seq<char>> {
    if 0 <= i < arguments.len() {
        Some(arguments[i])
    } else {
        None
    }
}

/// What the arguments from a place on ask for, on top of what was asked before.
pub open spec fn asked(
    options: OptionsModel,
    arguments: Seq<Seq<char>>,
    i: int,
    build: BuildModel,
) -> OptionsModel
    decreases arguments.len() - i,
{
    if i < 0 || i >= arguments.len() {
        options
    } else {
        let (now, used) = step(options, arguments[i], argument_at(arguments, i + 1), build);
        asked(
            now,
            arguments,
            i + (if used == 2 {
                2int
            } else {
                1
            }),
            build,
        )
    }
}

/// Whether an argument is a switch.
fn switches(plain: &str, hyphens: &str, slash: &str) -> (r: bool)
    ensures
        r == (plain@ == hyphens@ || plain@ == slash@),
{
    text::same_text(plain, hyphens) || text::same_text(plain, slash)
}

/// The number in an argument.
fn size_of(value: &str) -> (r: Option<usize>)
    ensures
        r == size_in(value@),
{
    let chars = text::chars_of(value);
    text::parse_usize(chars.as_slice())
}

/// The signed number in an argument.
fn page_of(value: &str) -> (r: Option<i32>)
    ensures
        r == page_in(value@),
{
    let chars = text::chars_of(value);
    text::parse_i32(chars.as_slice())
}

/// Takes an argument and the one behind it. Tells how many are used.
fn take_step(
    options: &mut StartupOptions,
    argument: &str,
    next: Option<&String>,
    bounds: &ThreadBounds,
    pages: &[SettingsPage],
    debug_tools: bool,
) -> (r: usize)
    requires
        bounds.well_formed(),
    ensures
        (final(options)@, r as int) == step(
            old(options)@,
            argument@,
            match next {
                Some(value) => Some(value@),
                None => None,
            },
            BuildModel { debug_tools, pages: pages@, bounds: *bounds },
        ),
        r == 1 || r == 2 && next is Some,
{
    let chars = text::chars_of(argument);
    let plain_text = text::string_of(text::ascii_lower_chars(chars.as_slice()).as_slice());
    let plain = plain_text.as_str();
    if switches(plain, "--settings", "/settings") {
        options.open_settings = true;
    } else if switches(plain, "--settings-general", "/settings-general") {
        options.open_settings = true;
        options.settings_page = Some(SettingsPage::General);
    } else if switches(plain, "--settings-page", "/settings-page") {
        options.open_settings = true;
        if let Some(value) = next {
            if let Some(page) = page_of(value.as_str()) {
                options.settings_page = Some(settings_page_from_nav_index(page, pages));
                return 2;
            }
        }
    } else if switches(plain, "--show", "/show") {
        options.show_main = true;
        options.hide_existing = false;
    } else if switches(plain, "--hidden", "/hidden") || switches(plain, "--hide", "/hide") {
        options.show_main = false;
        options.hide_existing = true;
    } else if !debug_tools {
        return 1;
    } else if switches(plain, "--debug-search", "/debug-search") {
        if let Some(value) = next {
            options.debug_search = Some(value.clone());
            return 2;
        }
    } else if switches(plain, "--debug-limit", "/debug-limit") {
        if let Some(value) = next {
            if let Some(n) = size_of(value.as_str()) {
                options.debug_limit = n;
                return 2;
            }
        }
    } else if switches(plain, "--debug-output", "/debug-output") {
        if let Some(value) = next {
            options.debug_output = Some(value.clone());
            return 2;
        }
    } else if switches(plain, "--bench-refinement", "/bench-refinement") {
        options.bench_search = Some(refinement_benchmark_sentinel().to_owned());
    } else if switches(plain, "--bench-search", "/bench-search") {
        if let Some(value) = next {
            options.bench_search = Some(value.clone());
            return 2;
        }
    } else if switches(plain, "--threads", "/threads") {
        if let Some(value) = next {
            options.bench_threads = parse_search_threads(value.as_str()).resolve(bounds);
            return 2;
        }
    } else if switches(plain, "--runs", "/runs") {
        if let Some(value) = next {
            if let Some(n) = size_of(value.as_str()) {
                options.bench_runs = n;
                return 2;
            }
        }
    }
    1
}

/// Reads what the program is asked to do. Without the debug tools their switches mean
/// nothing.
pub fn parse_startup_options(
    arguments: &[String],
    bounds: &ThreadBounds,
    pages: &[SettingsPage],
    debug_tools: bool,
) -> (r: StartupOptions)
    requires
        bounds.well_formed(),
    ensures
        r@ == asked(
            no_options(),
            text::texts(arguments@),
            0,
            BuildModel { debug_tools, pages: pages@, bounds: *bounds },
        ),
{
    let mut options = StartupOptions::default();
    let mut i: usize = 0;
    let ghost all = text::texts(arguments@);
    let ghost build = BuildModel { debug_tools, pages: pages@, bounds: *bounds };
    while i < arguments.len()
        invariant
            bounds.well_formed(),
            build == (BuildModel { debug_tools, pages: pages@, bounds: *bounds }),
            i <= arguments@.len(),
            all == text::texts(arguments@),
            asked(options@, all, i as int, build) == asked(no_options(), all, 0, build),
        decreases all.len() - i,
    {
        let next: Option<&String> = if arguments.len() - i > 1 {
            Some(&arguments[i + 1])
        } else {
            None
        };
        let used: usize = take_step(
            &mut options,
            arguments[i].as_str(),
            next,
            bounds,
            pages,
            debug_tools,
        );
        i = i + used;
    }
    options
}

// ---------------------------------------------------------------------------
// The last switch decides
// ---------------------------------------------------------------------------

/// A switch that shows the program or hides it.
pub open spec fn is_visibility_switch(argument: Seq<char>) -> bool {
    is_switch(argument, "--show"@, "/show"@) || is_hiding_switch(argument)
}

/// A switch that hides the program.
pub open spec fn is_hiding_switch(argument: Seq<char>) -> bool {
    is_switch(argument, "--hidden"@, "/hidden"@) || is_switch(argument, "--hide"@, "/hide"@)
}

/// A switch that takes whatever stands behind it.
pub open spec fn takes_anything(argument: Seq<char>) -> bool {
    is_switch(argument, "--debug-search"@, "/debug-search"@) || is_switch(
        argument,
        "--debug-output"@,
        "/debug-output"@,
    ) || is_switch(argument, "--bench-search"@, "/bench-search"@) || is_switch(
        argument,
        "--threads"@,
        "/threads"@,
    )
}

/// The last of the arguments from a place on is a switch that takes whatever stands behind
/// it.
pub open spec fn ends_open(arguments: Seq<Seq<char>>, i: int, build: BuildModel) -> bool
    decreases arguments.len() - i,
{
    if i < 0 || i >= arguments.len() {
        false
    } else if i == arguments.len() - 1 {
        build.debug_tools && takes_anything(arguments[i])
    } else {
        let used = step(no_options(), arguments[i], argument_at(arguments, i + 1), build).1;
        ends_open(
            arguments,
            i + (if used == 2 {
                2int
            } else {
                1
            }),
            build,
        )
    }
}

/// A switch that shows the program or hides it is no number.
proof fn lemma_visibility_switch_is_no_number(argument: Seq<char>)
    requires
        is_visibility_switch(argument),
    ensures
        page_in(argument) is None,
        size_in(argument) is None,
{
    let plain = text::ascii_lower_seq(argument);
    reveal_strlit("--show");
    reveal_strlit("/show");
    reveal_strlit("--hidden");
    reveal_strlit("/hidden");
    reveal_strlit("--hide");
    reveal_strlit("/hide");
    let n = argument.len() as int;
    assert(n == plain.len() && n >= 5);
    assert(plain[n - 1] == 'w' || plain[n - 1] == 'n' || plain[n - 1] == 'e');
    assert(plain[n - 1] == text::ascii_lower(argument[n - 1]));
    assert(argument.drop_first()[n - 2] == argument[n - 1]);
}

proof fn lemma_appended_decides(
    options: OptionsModel,
    arguments: Seq<Seq<char>>,
    switch: Seq<char>,
    i: int,
    build: BuildModel,
)
    requires
        0 <= i <= arguments.len(),
        is_visibility_switch(switch),
        !ends_open(arguments, i, build),
    ensures
        asked(options, arguments.push(switch), i, build) == step(
            asked(options, arguments, i, build),
            switch,
            None,
            build,
        ).0,
    decreases arguments.len() - i,
{
    let more = arguments.push(switch);
    if i == arguments.len() {
        assert(asked(step(options, switch, None, build).0, more, i + 1, build) == step(
            options,
            switch,
            None,
            build,
        ).0);
        assert(argument_at(more, i + 1) is None);
    } else {
        lemma_visibility_switch_is_no_number(switch);
        let next = argument_at(arguments, i + 1);
        let (now, used) = step(options, arguments[i], next, build);
        assert(more[i] == arguments[i]);
        if i + 1 < arguments.len() {
            assert(argument_at(more, i + 1) == next);
            assert(used == step(no_options(), arguments[i], next, build).1);
        } else {
            assert(argument_at(more, i + 1) == Some(switch));
            assert(step(options, arguments[i], Some(switch), build) == step(
                options,
                arguments[i],
                None,
                build,
            ));
        }
        lemma_appended_decides(
            now,
            arguments,
            switch,
            i + (if used == 2 {
                2int
            } else {
                1
            }),
            build,
        );
    }
}

/// A switch that shows the program or hides it decides when it comes last, and changes
/// nothing else; unless the switch in front of it takes it for its value.
pub proof fn lemma_last_visibility_switch_decides(
    arguments: Seq<Seq<char>>,
    switch: Seq<char>,
    build: BuildModel,
)
    requires
        is_visibility_switch(switch),
        !ends_open(arguments, 0, build),
    ensures
        asked(no_options(), arguments.push(switch), 0, build) == (OptionsModel {
            show_main: !is_hiding_switch(switch),
            hide_existing: is_hiding_switch(switch),
            ..asked(no_options(), arguments, 0, build)
        }),
{
    lemma_appended_decides(no_options(), arguments, switch, 0, build);
    reveal_strlit("--show");
    reveal_strlit("/show");
    reveal_strlit("--hidden");
    reveal_strlit("/hidden");
    reveal_strlit("--hide");
    reveal_strlit("/hide");
    reveal_strlit("--settings");
    reveal_strlit("/settings");
    reveal_strlit("--settings-general");
    reveal_strlit("/settings-general");
    reveal_strlit("--settings-page");
    reveal_strlit("/settings-page");
    let plain = text::ascii_lower_seq(switch);
    assert(plain.len() <= 8 && plain.len() != 10 && plain.len() != 9);
    assert("--show"@[2] == 's' && "/show"@[1] == 's' && "--hidden"@[2] == 'h' && "/hidden"@[1]
        == 'h' && "--hide"@[2] == 'h' && "/hide"@[1] == 'h');
}

/// Without the debug tools no switch takes whatever stands behind it, so the last switch
/// that shows the program or hides it always decides.
pub proof fn lemma_nothing_ends_open(arguments: Seq<Seq<char>>, i: int, build: BuildModel)
    requires
        !build.debug_tools,
    ensures
        !ends_open(arguments, i, build),
    decreases arguments.len() - i,
{
    if 0 <= i < arguments.len() - 1 {
        let used = step(no_options(), arguments[i], argument_at(arguments, i + 1), build).1;
        lemma_nothing_ends_open(
            arguments,
            i + (if used == 2 {
                2int
            } else {
                1
            }),
            build,
        );
    }
}

/// No arguments ask for the program to be both shown and hidden.
pub proof fn lemma_never_shown_and_hidden(
    options: OptionsModel,
    arguments: Seq<Seq<char>>,
    i: int,
    build: BuildModel,
)
    requires
        !(options.show_main && options.hide_existing),
    ensures
        !(asked(options, arguments, i, build).show_main && asked(
            options,
            arguments,
            i,
            build,
        ).hide_existing),
    decreases arguments.len() - i,
{
    if 0 <= i < arguments.len() {
        let (now, used) = step(options, arguments[i], argument_at(arguments, i + 1), build);
        lemma_never_shown_and_hidden(
            now,
            arguments,
            i + (if used == 2 {
                2int
            } else {
                1
            }),
            build,
        );
    }
}

// ---------------------------------------------------------------------------
// What the switches ask for
// ---------------------------------------------------------------------------

/// A switch is known whatever the case of its letters.
pub proof fn lemma_switches_in_any_case(
    a: Seq<char>,
    b: Seq<char>,
    hyphens: Seq<char>,
    slash: Seq<char>,
)
    requires
        text::same_ignoring_ascii_case(a, b),
    ensures
        is_switch(a, hyphens, slash) == is_switch(b, hyphens, slash),
{
}

/// Without the debug tools nothing is measured or written out, whatever is asked for.
pub proof fn lemma_no_tools_no_debugging(
    options: OptionsModel,
    argument: Seq<char>,
    next: Option<Seq<char>>,
    build: BuildModel,
)
    requires
        !build.debug_tools,
    ensures
        ({
            let (now, used) = step(options, argument, next, build);
            now.debug_search == options.debug_search && now.debug_limit == options.debug_limit
                && now.debug_output == options.debug_output && now.bench_search
                == options.bench_search && now.bench_threads == options.bench_threads
                && now.bench_runs == options.bench_runs
        }),
{
}

/// A step takes the switch alone or the switch with its value, and never a value that is not
/// there. What opens the settings is never taken back.
pub proof fn lemma_steps_go_on(
    options: OptionsModel,
    argument: Seq<char>,
    next: Option<Seq<char>>,
    build: BuildModel,
)
    ensures
        ({
            let (now, used) = step(options, argument, next, build);
            &&& used == 1 || used == 2
            &&& next is None ==> used == 1
            &&& options.open_settings ==> now.open_settings
            &&& is_switch(argument, "--settings"@, "/settings"@) ==> now == (OptionsModel {
                open_settings: true,
                ..options
            })
        }),
{
}

/// The page of the settings that is asked for is the one of its number, and the general one
/// where there is none.
pub proof fn lemma_pages_by_number(index: i32, pages: Seq<SettingsPage>)
    requires
        index != PATTERN_SCORING_NAV_INDEX,
    ensures
        0 <= index < pages.len() ==> page_at(index, pages) == pages[index as int],
        index < 0 || index >= pages.len() ==> page_at(index, pages) == SettingsPage::General,
        page_at(PATTERN_SCORING_NAV_INDEX, pages) == SettingsPage::PatternScoring,
{
}

/// A number of threads is read as it is written; all of them are asked for by name, and what is
/// neither leaves it to the program.
pub proof fn lemma_threads_by_number(n: usize, value: Seq<char>)
    ensures
        thread_mode(text::decimal(n as int)) == SearchThreadMode::Manual(n),
        text::same_ignoring_ascii_case(text::trimmed(value), "max"@) ==> thread_mode(value)
            == SearchThreadMode::Maximum,
        !text::same_ignoring_ascii_case(text::trimmed(value), "max"@) && text::parsed_nat(
            text::trimmed(value),
        ) is None ==> thread_mode(value) == SearchThreadMode::Auto,
{
    reveal_strlit("max");
    let shown = text::decimal(n as int);
    text::lemma_digits_round_trip(n as nat);
    assert(text::is_digit(shown[0]));
    assert(text::is_digit(shown[shown.len() - 1]));
    text::lemma_trimmed_stays(shown);
    assert(text::ascii_lower_seq(shown)[0] == shown[0]);
    assert(text::ascii_lower_seq("max"@)[0] == 'm');
}

/// A number of threads is read back as it was written.
pub proof fn lemma_threads_are_read_back(mode: SearchThreadMode, bounds: ThreadBounds)
    requires
        bounds.well_formed(),
    ensures
        mode == SearchThreadMode::Maximum ==> thread_mode(mode.written(bounds)) == mode,
        mode == SearchThreadMode::Auto ==> thread_mode(mode.written(bounds)) == mode,
        mode matches SearchThreadMode::Manual(n) ==> (bounds.minimum <= n <= bounds.available
            ==> thread_mode(mode.written(bounds)) == mode) && thread_mode(mode.written(bounds)).resolved(
            bounds,
        ) == mode.resolved(bounds),
{
    match mode {
        SearchThreadMode::Manual(n) => {
            let kept: usize = mode.resolved(bounds);
            lemma_threads_by_number(kept, Seq::empty());
        },
        SearchThreadMode::Maximum => {
            reveal_strlit("max");
            text::lemma_trimmed_stays("max"@);
            let none: usize = 0;
            lemma_threads_by_number(none, "max"@);
        },
        SearchThreadMode::Auto => {
            reveal_strlit("auto");
            reveal_strlit("max");
            text::lemma_trimmed_stays("auto"@);
            assert(text::ascii_lower_seq("auto"@).len() == 4);
            assert(text::ascii_lower_seq("max"@).len() == 3);
            let none: usize = 0;
            assert(!text::is_digit("auto"@[0]));
            lemma_threads_by_number(none, "auto"@);
        },
    }
}

/// With the debug tools each switch takes its own value and nothing else.
pub proof fn lemma_switches_with_values(options: OptionsModel, value: Seq<char>, build: BuildModel)
    requires
        build.debug_tools,
    ensures
        step(options, "--debug-search"@, Some(value), build) == (
            OptionsModel { debug_search: Some(value), ..options },
            2int,
        ),
        step(options, "--debug-output"@, Some(value), build) == (
            OptionsModel { debug_output: Some(value), ..options },
            2int,
        ),
        step(options, "--bench-search"@, Some(value), build) == (
            OptionsModel { bench_search: Some(value), ..options },
            2int,
        ),
        step(options, "--show"@, Some(value), build) == (
            OptionsModel { show_main: true, hide_existing: false, ..options },
            1int,
        ),
        step(options, "--hide"@, Some(value), build) == (
            OptionsModel { show_main: false, hide_existing: true, ..options },
            1int,
        ),
{
    reveal_strlit("--settings");
    reveal_strlit("/settings");
    reveal_strlit("--settings-general");
    reveal_strlit("/settings-general");
    reveal_strlit("--settings-page");
    reveal_strlit("/settings-page");
    reveal_strlit("--show");
    reveal_strlit("/show");
    reveal_strlit("--hidden");
    reveal_strlit("/hidden");
    reveal_strlit("--hide");
    reveal_strlit("/hide");
    reveal_strlit("--debug-search");
    reveal_strlit("/debug-search");
    reveal_strlit("--debug-limit");
    reveal_strlit("/debug-limit");
    reveal_strlit("--debug-output");
    reveal_strlit("/debug-output");
    reveal_strlit("--bench-refinement");
    reveal_strlit("/bench-refinement");
    reveal_strlit("--bench-search");
    reveal_strlit("/bench-search");
    assert(text::ascii_lower_seq("--debug-search"@) =~= "--debug-search"@);
    assert(text::ascii_lower_seq("--debug-output"@) =~= "--debug-output"@);
    assert(text::ascii_lower_seq("--bench-search"@) =~= "--bench-search"@);
    assert(text::ascii_lower_seq("--show"@) =~= "--show"@);
    assert(text::ascii_lower_seq("--hide"@) =~= "--hide"@);
    assert("--debug-search"@[8] == 's' && "--debug-output"@[8] == 'o' && "--bench-search"@[2] == 'b'
        && "--debug-search"@[2] == 'd' && "--debug-output"@[2] == 'd' && "--settings-page"@[2]
        == 's' && "/settings-page"@[0] == '/' && "--show"@[2] == 's' && "--hide"@[2] == 'h');
    assert("--debug-search"@.len() == 14 && "--debug-output"@.len() == 14 && "--bench-search"@.len()
        == 14 && "/settings-page"@.len() == 14 && "--settings-page"@.len() == 15);
    assert("/hidden"@.len() == 7 && "/settings-page"@[1] == 's');
    assert("--debug-search"@[0] == '-' && "--debug-output"@[0] == '-' && "--bench-search"@[0]
        == '-');
}

} // verus!
