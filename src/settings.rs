//! The closed vocabulary of behavioural switches a command may set.
use vstd::prelude::*;
use vstd::string::*;

verus! {

/// A behavioural switch of the matching engine.
#[derive(Clone, Copy, Debug, PartialEq, Eq, Structural)]
pub enum Setting {
    RequiredSubcommand,
    SubcommandPrecedenceOverArg,
    ArgsNegateSubcommands,
    AllowExternalSubcommands,
    StrictUtf8,
    AllowHyphenValues,
    AllowLeadingHyphen,
    AllowNegativeNumbers,
    AllowMissingPositional,
    UnifiedHelpMessage,
    ColoredHelp,
    ColorAlways,
    ColorAuto,
    ColorNever,
    DontDelimitTrailingValues,
    DontCollapseArgsInUsage,
    DeriveDisplayOrder,
    DisableColoredHelp,
    DisableHelpSubcommand,
    DisableHelpFlag,
    DisableVersionFlag,
    PropagateVersion,
    HidePossibleValues,
    HelpExpected,
    Hidden,
    NoAutoHelp,
    NoAutoVersion,
    NoBinaryName,
    SubcommandNegatesReqs,
    SubcommandRequired,
    TrailingVarArg,
    NextLineHelp,
    IgnoreErrors,
    InferSubcommands,
    AllArgsOverrideSelf,
    InferLongArgs,
}

/// ASCII upper-case letters turned to lower case; every other character kept.
pub open spec fn fold_char(c: char) -> char {
    if 'A' <= c && c <= 'Z' {
        (((c as u8) + 32) as u8) as char
    } else {
        c
    }
}

pub open spec fn folded(s: Seq<char>) -> Seq<char> {
    s.map_values(|c: char| fold_char(c))
}

fn lower_char(c: char) -> (r: char)
    ensures
        r == fold_char(c),
{
    if 'A' <= c && c <= 'Z' {
        ((c as u8) + 32) as char
    } else {
        c
    }
}

/// Whether the two texts are equal up to ASCII case.
pub fn eq_ignore_case(a: &str, b: &str) -> (r: bool)
    ensures
        r == (folded(a@) == folded(b@)),
{
    let na = a.unicode_len();
    let nb = b.unicode_len();
    if na != nb {
        assert(folded(a@).len() != folded(b@).len());
        return false;
    }
    let mut i: usize = 0;
    while i < na
        invariant
            na == a@.len(),
            nb == b@.len(),
            na == nb,
            i <= na,
            forall|k: int| 0 <= k < i ==> fold_char(#[trigger] a@[k]) == fold_char(b@[k]),
        decreases na - i,
    {
        if lower_char(a.get_char(i)) != lower_char(b.get_char(i)) {
            assert(folded(a@)[i as int] != folded(b@)[i as int]);
            return false;
        }
        i = i + 1;
    }
    assert(folded(a@) =~= folded(b@));
    true
}

/// The switch a name stands for, compared without regard to ASCII case.
pub open spec fn setting_named(s: Seq<char>) -> Option<Setting> {
    if folded(s) == folded("required-subcommand"@) {
        Some(Setting::RequiredSubcommand)
    } else if folded(s) == folded("subcommand-precedence-over-arg"@) {
        Some(Setting::SubcommandPrecedenceOverArg)
    } else if folded(s) == folded("args-negate-subcommands"@) {
        Some(Setting::ArgsNegateSubcommands)
    } else if folded(s) == folded("allow-external-subcommands"@) {
        Some(Setting::AllowExternalSubcommands)
    } else if folded(s) == folded("strict-utf8"@) {
        Some(Setting::StrictUtf8)
    } else if folded(s) == folded("allow-hyphen-values"@) {
        Some(Setting::AllowHyphenValues)
    } else if folded(s) == folded("allow-leading-hyphen"@) {
        Some(Setting::AllowLeadingHyphen)
    } else if folded(s) == folded("allow-negative-numbers"@) {
        Some(Setting::AllowNegativeNumbers)
    } else if folded(s) == folded("allow-missing-positional"@) {
        Some(Setting::AllowMissingPositional)
    } else if folded(s) == folded("unified-help-message"@) {
        Some(Setting::UnifiedHelpMessage)
    } else if folded(s) == folded("colored-help"@) {
        Some(Setting::ColoredHelp)
    } else if folded(s) == folded("color-always"@) {
        Some(Setting::ColorAlways)
    } else if folded(s) == folded("color-auto"@) {
        Some(Setting::ColorAuto)
    } else if folded(s) == folded("color-never"@) {
        Some(Setting::ColorNever)
    } else if folded(s) == folded("dont-delimit-trailing-values"@) {
        Some(Setting::DontDelimitTrailingValues)
    } else if folded(s) == folded("dont-collapse-args-in-usage"@) {
        Some(Setting::DontCollapseArgsInUsage)
    } else if folded(s) == folded("derive-display-order"@) {
        Some(Setting::DeriveDisplayOrder)
    } else if folded(s) == folded("disable-colored-help"@) {
        Some(Setting::DisableColoredHelp)
    } else if folded(s) == folded("disable-help-subcommand"@) {
        Some(Setting::DisableHelpSubcommand)
    } else if folded(s) == folded("disable-help-flag"@) {
        Some(Setting::DisableHelpFlag)
    } else if folded(s) == folded("disable-version-flag"@) {
        Some(Setting::DisableVersionFlag)
    } else if folded(s) == folded("propagate-version"@) {
        Some(Setting::PropagateVersion)
    } else if folded(s) == folded("hide-possible-values"@) {
        Some(Setting::HidePossibleValues)
    } else if folded(s) == folded("help-expected"@) {
        Some(Setting::HelpExpected)
    } else if folded(s) == folded("hidden"@) {
        Some(Setting::Hidden)
    } else if folded(s) == folded("no-auto-help"@) {
        Some(Setting::NoAutoHelp)
    } else if folded(s) == folded("no-auto-version"@) {
        Some(Setting::NoAutoVersion)
    } else if folded(s) == folded("no-binary-name"@) {
        Some(Setting::NoBinaryName)
    } else if folded(s) == folded("subcommand-negates-reqs"@) {
        Some(Setting::SubcommandNegatesReqs)
    } else if folded(s) == folded("subcommand-required"@) {
        Some(Setting::SubcommandRequired)
    } else if folded(s) == folded("trailing-var-arg"@) {
        Some(Setting::TrailingVarArg)
    } else if folded(s) == folded("next-line-help"@) {
        Some(Setting::NextLineHelp)
    } else if folded(s) == folded("ignore-errors"@) {
        Some(Setting::IgnoreErrors)
    } else if folded(s) == folded("infer-subcommands"@) {
        Some(Setting::InferSubcommands)
    } else if folded(s) == folded("all-args-override-self"@) {
        Some(Setting::AllArgsOverrideSelf)
    } else if folded(s) == folded("infer-long-args"@) {
        Some(Setting::InferLongArgs)
    } else {
        None
    }
}

/// Looks a switch up by name, without regard to ASCII case.
pub fn setting_from_name(name: &str) -> (r: Option<Setting>)
    ensures
        r == setting_named(name@),
{
    if eq_ignore_case(name, "required-subcommand") {
        Some(Setting::RequiredSubcommand)
    } else if eq_ignore_case(name, "subcommand-precedence-over-arg") {
        Some(Setting::SubcommandPrecedenceOverArg)
    } else if eq_ignore_case(name, "args-negate-subcommands") {
        Some(Setting::ArgsNegateSubcommands)
    } else if eq_ignore_case(name, "allow-external-subcommands") {
        Some(Setting::AllowExternalSubcommands)
    } else if eq_ignore_case(name, "strict-utf8") {
        Some(Setting::StrictUtf8)
    } else if eq_ignore_case(name, "allow-hyphen-values") {
        Some(Setting::AllowHyphenValues)
    } else if eq_ignore_case(name, "allow-leading-hyphen") {
        Some(Setting::AllowLeadingHyphen)
    } else if eq_ignore_case(name, "allow-negative-numbers") {
        Some(Setting::AllowNegativeNumbers)
    } else if eq_ignore_case(name, "allow-missing-positional") {
        Some(Setting::AllowMissingPositional)
    } else if eq_ignore_case(name, "unified-help-message") {
        Some(Setting::UnifiedHelpMessage)
    } else if eq_ignore_case(name, "colored-help") {
        Some(Setting::ColoredHelp)
    } else if eq_ignore_case(name, "color-always") {
        Some(Setting::ColorAlways)
    } else if eq_ignore_case(name, "color-auto") {
        Some(Setting::ColorAuto)
    } else if eq_ignore_case(name, "color-never") {
        Some(Setting::ColorNever)
    } else if eq_ignore_case(name, "dont-delimit-trailing-values") {
        Some(Setting::DontDelimitTrailingValues)
    } else if eq_ignore_case(name, "dont-collapse-args-in-usage") {
        Some(Setting::DontCollapseArgsInUsage)
    } else if eq_ignore_case(name, "derive-display-order") {
        Some(Setting::DeriveDisplayOrder)
    } else if eq_ignore_case(name, "disable-colored-help") {
        Some(Setting::DisableColoredHelp)
    } else if eq_ignore_case(name, "disable-help-subcommand") {
        Some(Setting::DisableHelpSubcommand)
    } else if eq_ignore_case(name, "disable-help-flag") {
        Some(Setting::DisableHelpFlag)
    } else if eq_ignore_case(name, "disable-version-flag") {
        Some(Setting::DisableVersionFlag)
    } else if eq_ignore_case(name, "propagate-version") {
        Some(Setting::PropagateVersion)
    } else if eq_ignore_case(name, "hide-possible-values") {
        Some(Setting::HidePossibleValues)
    } else if eq_ignore_case(name, "help-expected") {
        Some(Setting::HelpExpected)
    } else if eq_ignore_case(name, "hidden") {
        Some(Setting::Hidden)
    } else if eq_ignore_case(name, "no-auto-help") {
        Some(Setting::NoAutoHelp)
    } else if eq_ignore_case(name, "no-auto-version") {
        Some(Setting::NoAutoVersion)
    } else if eq_ignore_case(name, "no-binary-name") {
        Some(Setting::NoBinaryName)
    } else if eq_ignore_case(name, "subcommand-negates-reqs") {
        Some(Setting::SubcommandNegatesReqs)
    } else if eq_ignore_case(name, "subcommand-required") {
        Some(Setting::SubcommandRequired)
    } else if eq_ignore_case(name, "trailing-var-arg") {
        Some(Setting::TrailingVarArg)
    } else if eq_ignore_case(name, "next-line-help") {
        Some(Setting::NextLineHelp)
    } else if eq_ignore_case(name, "ignore-errors") {
        Some(Setting::IgnoreErrors)
    } else if eq_ignore_case(name, "infer-subcommands") {
        Some(Setting::InferSubcommands)
    } else if eq_ignore_case(name, "all-args-override-self") {
        Some(Setting::AllArgsOverrideSelf)
    } else if eq_ignore_case(name, "infer-long-args") {
        Some(Setting::InferLongArgs)
    } else {
        None
    }
}

} // verus!
