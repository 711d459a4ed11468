//! Command line options: what each option takes, and what it sets.
use crate::args::{Switches, TargetName};
use crate::macho::consts::{MH_BUNDLE, MH_DYLIB, PLATFORM_MACOS};
use crate::util::bytes;
use crate::util::text;
use vstd::prelude::*;
use vstd::string::*;

verus! {

/// How an option's argument is read.
#[derive(Clone, Copy, Debug, PartialEq, Eq, Structural)]
pub enum ArgKind {
    /// Bytes as they are: a path, an install name.
    Raw,
    /// Text.
    Text,
    /// A target's name.
    Target,
    /// A platform's name or number.
    Platform,
    /// An X.Y.Z version.
    Version,
    /// A hexadecimal number.
    Hex,
    /// A protection string.
    Prot,
    /// A treatment of undefined symbols.
    Treatment,
    /// A hexadecimal power of two.
    Align,
    /// A pattern that names symbols.
    Pattern,
    /// The path of a list of such patterns.
    ListFile,
    /// The path of a list of aliases.
    AliasFile,
    /// The path of a list of paths, and a directory behind a comma.
    FileList,
}

/// An option that sets one value.
#[derive(Clone, Copy, Debug, PartialEq, Eq, Structural)]
pub enum OneSlot {
    Output,
    Entry,
    InstallName,
    FinalOutput,
    BundleLoader,
    MapFile,
    SdkImports,
    LtoLibrary,
    DependencyInfo,
    ObjectPathLto,
    ExecutablePath,
    Umbrella,
    OsoPrefix,
    ClientName,
    Ignored,
}

/// An option that adds to a list.
#[derive(Clone, Copy, Debug, PartialEq, Eq, Structural)]
pub enum PushSlot {
    Syslibroot,
    LibraryPath,
    FrameworkPath,
    Rpath,
    AstPath,
    ForcedUndefined,
    AllowedUndefined,
    OrderFile,
    AllowableClient,
    ExportedSymbol,
    UnexportedSymbol,
    WhyLive,
}

/// An option that adds an input.
#[derive(Clone, Copy, Debug, PartialEq, Eq, Structural)]
pub enum InputSlot {
    Lib,
    Framework,
    WeakFramework,
    ReexportFramework,
    NeededFramework,
    NeededFile,
    WeakFile,
    ReexportFile,
    ReexportLib,
    ForceLoad,
}

/// An option that sets switches and numbers.
#[derive(Clone, Copy, Debug, PartialEq, Eq, Structural)]
pub enum ValueSlot {
    Arch,
    Headerpad,
    PagezeroSize,
    ImageBase,
    StackSize,
    CurrentVersion,
    CompatibilityVersion,
    MacosVersionMin,
    Undefined,
    PlatformVersion,
}

/// An option that takes a group of arguments.
#[derive(Clone, Copy, Debug, PartialEq, Eq, Structural)]
pub enum TupleSlot {
    Segaddr,
    Segprot,
    SegmentOrder,
    RenameSection,
    RenameSegment,
    Sectcreate,
    AddEmptySection,
    Sectalign,
    Alias,
}

/// An option that names a file to read.
#[derive(Clone, Copy, Debug, PartialEq, Eq, Structural)]
pub enum FileSlot {
    Filelist,
    Exported,
    Unexported,
    Reexported,
    LocalStrip,
    LocalKeep,
    AliasList,
}

/// What an option with arguments does with them.
#[derive(Clone, Copy, Debug, PartialEq, Eq, Structural)]
pub enum Slot {
    One(OneSlot),
    Push(PushSlot),
    Input(InputSlot),
    Value(ValueSlot),
    Tuple(TupleSlot),
    FromFile(FileSlot),
}

/// An option without arguments.
#[derive(Clone, Copy, Debug, PartialEq, Eq, Structural)]
pub enum Switch {
    Dylib,
    Bundle,
    KeepPrivateExterns,
    FixupChains,
    NoFixupChains,
    AdhocCodesign,
    NoAdhocCodesign,
    Dynamic,
    Static,
    Pie,
    NoPie,
    StripLocals,
    NoStandardDirs,
    Relocatable,
    FlatNamespace,
    TwolevelNamespace,
    SuppressWarnings,
    FatalWarnings,
    Demangle,
    DeadStrip,
    DeadStripDylibs,
    BindAtLoad,
    ApplicationExtension,
    NoApplicationExtension,
    StripDebug,
    AllLoad,
    NoExportedSymbols,
    Version,
    NoallLoad,
    ObjC,
    SearchPathsFirst,
    SearchDylibsFirst,
    MarkDeadStrippableDylib,
    ExportDynamic,
    PrintDependencies,
    WhyLoad,
    Trace,
    IgnoreOptimizationHints,
    PrintStatistics,
    WarnDuplicateLibraries,
    NoWarnDuplicateLibraries,
    HeaderpadMaxInstallNames,
    NoDeduplicate,
    FunctionStarts,
    InitOffsets,
    DataConst,
    NoDataConst,
    NoImplicitDylibs,
    ObjcRelativeMethodLists,
    NoObjcRelativeMethodLists,
    ObjcCategoryMerging,
    NoObjcCategoryMerging,
    NoFunctionStarts,
    DataInCodeInfo,
    SplitSegInfo,
    NoSplitSegInfo,
    NoDataInCodeInfo,
    NoUuid,
    Ignored,
}

/// The option without arguments of a name, if there is one.
#[verifier::opaque]
pub open spec fn switch_named(opt: Seq<u8>) -> Option<Switch> {
    if opt == "-dylib".spec_bytes() {
        Some(Switch::Dylib)
    } else if opt == "-bundle".spec_bytes() {
        Some(Switch::Bundle)
    } else if opt == "-keep_private_externs".spec_bytes() {
        Some(Switch::KeepPrivateExterns)
    } else if opt == "-fixup_chains".spec_bytes() {
        Some(Switch::FixupChains)
    } else if opt == "-no_fixup_chains".spec_bytes() {
        Some(Switch::NoFixupChains)
    } else if opt == "-adhoc_codesign".spec_bytes() {
        Some(Switch::AdhocCodesign)
    } else if opt == "-no_adhoc_codesign".spec_bytes() {
        Some(Switch::NoAdhocCodesign)
    } else if opt == "-dynamic".spec_bytes() {
        Some(Switch::Dynamic)
    } else if opt == "-static".spec_bytes() {
        Some(Switch::Static)
    } else if opt == "-pie".spec_bytes() {
        Some(Switch::Pie)
    } else if opt == "-no_pie".spec_bytes() {
        Some(Switch::NoPie)
    } else if opt == "-x".spec_bytes() {
        Some(Switch::StripLocals)
    } else if opt == "-Z".spec_bytes() {
        Some(Switch::NoStandardDirs)
    } else if opt == "-r".spec_bytes() {
        Some(Switch::Relocatable)
    } else if opt == "-flat_namespace".spec_bytes() {
        Some(Switch::FlatNamespace)
    } else if opt == "-twolevel_namespace".spec_bytes() {
        Some(Switch::TwolevelNamespace)
    } else if opt == "-w".spec_bytes() {
        Some(Switch::SuppressWarnings)
    } else if opt == "-fatal_warnings".spec_bytes() {
        Some(Switch::FatalWarnings)
    } else if opt == "-demangle".spec_bytes() {
        Some(Switch::Demangle)
    } else if opt == "-dead_strip".spec_bytes() {
        Some(Switch::DeadStrip)
    } else if opt == "-dead_strip_dylibs".spec_bytes() {
        Some(Switch::DeadStripDylibs)
    } else if opt == "-bind_at_load".spec_bytes() {
        Some(Switch::BindAtLoad)
    } else if opt == "-application_extension".spec_bytes() {
        Some(Switch::ApplicationExtension)
    } else if opt == "-no_application_extension".spec_bytes() {
        Some(Switch::NoApplicationExtension)
    } else if opt == "-S".spec_bytes() {
        Some(Switch::StripDebug)
    } else if opt == "-all_load".spec_bytes() {
        Some(Switch::AllLoad)
    } else if opt == "-no_exported_symbols".spec_bytes() {
        Some(Switch::NoExportedSymbols)
    } else if opt == "-v".spec_bytes() {
        Some(Switch::Version)
    } else if opt == "-noall_load".spec_bytes() {
        Some(Switch::NoallLoad)
    } else if opt == "-ObjC".spec_bytes() {
        Some(Switch::ObjC)
    } else if opt == "-search_paths_first".spec_bytes() {
        Some(Switch::SearchPathsFirst)
    } else if opt == "-search_dylibs_first".spec_bytes() {
        Some(Switch::SearchDylibsFirst)
    } else if opt == "-mark_dead_strippable_dylib".spec_bytes() {
        Some(Switch::MarkDeadStrippableDylib)
    } else if opt == "-export_dynamic".spec_bytes() {
        Some(Switch::ExportDynamic)
    } else if opt == "--print-dependencies".spec_bytes() {
        Some(Switch::PrintDependencies)
    } else if opt == "-why_load".spec_bytes() || opt == "-whyload".spec_bytes() {
        Some(Switch::WhyLoad)
    } else if opt == "-t".spec_bytes() {
        Some(Switch::Trace)
    } else if opt == "-ignore_optimization_hints".spec_bytes() {
        Some(Switch::IgnoreOptimizationHints)
    } else if opt == "-print_statistics".spec_bytes() {
        Some(Switch::PrintStatistics)
    } else if opt == "-warn_duplicate_libraries".spec_bytes() {
        Some(Switch::WarnDuplicateLibraries)
    } else if opt == "-no_warn_duplicate_libraries".spec_bytes() {
        Some(Switch::NoWarnDuplicateLibraries)
    } else if opt == "-headerpad_max_install_names".spec_bytes() {
        Some(Switch::HeaderpadMaxInstallNames)
    } else if opt == "-no_deduplicate".spec_bytes() {
        Some(Switch::NoDeduplicate)
    } else if opt == "-function_starts".spec_bytes() {
        Some(Switch::FunctionStarts)
    } else if opt == "-init_offsets".spec_bytes() {
        Some(Switch::InitOffsets)
    } else if opt == "-data_const".spec_bytes() {
        Some(Switch::DataConst)
    } else if opt == "-no_data_const".spec_bytes() {
        Some(Switch::NoDataConst)
    } else if opt == "-no_implicit_dylibs".spec_bytes() {
        Some(Switch::NoImplicitDylibs)
    } else if opt == "-objc_relative_method_lists".spec_bytes() {
        Some(Switch::ObjcRelativeMethodLists)
    } else if opt == "-no_objc_relative_method_lists".spec_bytes() {
        Some(Switch::NoObjcRelativeMethodLists)
    } else if opt == "-objc_category_merging".spec_bytes() {
        Some(Switch::ObjcCategoryMerging)
    } else if opt == "-no_objc_category_merging".spec_bytes() {
        Some(Switch::NoObjcCategoryMerging)
    } else if opt == "-no_function_starts".spec_bytes() {
        Some(Switch::NoFunctionStarts)
    } else if opt == "-data_in_code_info".spec_bytes() {
        Some(Switch::DataInCodeInfo)
    } else if opt == "-split_seg_info".spec_bytes() {
        Some(Switch::SplitSegInfo)
    } else if opt == "-no_split_seg_info".spec_bytes() {
        Some(Switch::NoSplitSegInfo)
    } else if opt == "-no_data_in_code_info".spec_bytes() {
        Some(Switch::NoDataInCodeInfo)
    } else if opt == "-no_uuid".spec_bytes() {
        Some(Switch::NoUuid)
    } else if opt == "-version_load_command".spec_bytes() || opt == "-no_dead_strip_inits_and_terms".spec_bytes() || opt == "-reproducible".spec_bytes() || opt == "-debug_variant".spec_bytes() || opt == "-O0".spec_bytes() || opt == "-O1".spec_bytes() || opt == "-O2".spec_bytes() || opt == "-O3".spec_bytes() || opt == "-Os".spec_bytes() || opt == "-Oz".spec_bytes() {
        Some(Switch::Ignored)
    } else {
        None
    }
}

/// Finds the option without arguments of a name.
pub fn find_switch(opt: &[u8]) -> (r: Option<Switch>)
    ensures
        r == switch_named(opt@),
{
    proof {
        reveal(switch_named);
    }
    if bytes::same(opt, "-dylib".as_bytes()) {
        Some(Switch::Dylib)
    } else if bytes::same(opt, "-bundle".as_bytes()) {
        Some(Switch::Bundle)
    } else if bytes::same(opt, "-keep_private_externs".as_bytes()) {
        Some(Switch::KeepPrivateExterns)
    } else if bytes::same(opt, "-fixup_chains".as_bytes()) {
        Some(Switch::FixupChains)
    } else if bytes::same(opt, "-no_fixup_chains".as_bytes()) {
        Some(Switch::NoFixupChains)
    } else if bytes::same(opt, "-adhoc_codesign".as_bytes()) {
        Some(Switch::AdhocCodesign)
    } else if bytes::same(opt, "-no_adhoc_codesign".as_bytes()) {
        Some(Switch::NoAdhocCodesign)
    } else if bytes::same(opt, "-dynamic".as_bytes()) {
        Some(Switch::Dynamic)
    } else if bytes::same(opt, "-static".as_bytes()) {
        Some(Switch::Static)
    } else if bytes::same(opt, "-pie".as_bytes()) {
        Some(Switch::Pie)
    } else if bytes::same(opt, "-no_pie".as_bytes()) {
        Some(Switch::NoPie)
    } else if bytes::same(opt, "-x".as_bytes()) {
        Some(Switch::StripLocals)
    } else if bytes::same(opt, "-Z".as_bytes()) {
        Some(Switch::NoStandardDirs)
    } else if bytes::same(opt, "-r".as_bytes()) {
        Some(Switch::Relocatable)
    } else if bytes::same(opt, "-flat_namespace".as_bytes()) {
        Some(Switch::FlatNamespace)
    } else if bytes::same(opt, "-twolevel_namespace".as_bytes()) {
        Some(Switch::TwolevelNamespace)
    } else if bytes::same(opt, "-w".as_bytes()) {
        Some(Switch::SuppressWarnings)
    } else if bytes::same(opt, "-fatal_warnings".as_bytes()) {
        Some(Switch::FatalWarnings)
    } else if bytes::same(opt, "-demangle".as_bytes()) {
        Some(Switch::Demangle)
    } else if bytes::same(opt, "-dead_strip".as_bytes()) {
        Some(Switch::DeadStrip)
    } else if bytes::same(opt, "-dead_strip_dylibs".as_bytes()) {
        Some(Switch::DeadStripDylibs)
    } else if bytes::same(opt, "-bind_at_load".as_bytes()) {
        Some(Switch::BindAtLoad)
    } else if bytes::same(opt, "-application_extension".as_bytes()) {
        Some(Switch::ApplicationExtension)
    } else if bytes::same(opt, "-no_application_extension".as_bytes()) {
        Some(Switch::NoApplicationExtension)
    } else if bytes::same(opt, "-S".as_bytes()) {
        Some(Switch::StripDebug)
    } else if bytes::same(opt, "-all_load".as_bytes()) {
        Some(Switch::AllLoad)
    } else if bytes::same(opt, "-no_exported_symbols".as_bytes()) {
        Some(Switch::NoExportedSymbols)
    } else if bytes::same(opt, "-v".as_bytes()) {
        Some(Switch::Version)
    } else if bytes::same(opt, "-noall_load".as_bytes()) {
        Some(Switch::NoallLoad)
    } else if bytes::same(opt, "-ObjC".as_bytes()) {
        Some(Switch::ObjC)
    } else if bytes::same(opt, "-search_paths_first".as_bytes()) {
        Some(Switch::SearchPathsFirst)
    } else if bytes::same(opt, "-search_dylibs_first".as_bytes()) {
        Some(Switch::SearchDylibsFirst)
    } else if bytes::same(opt, "-mark_dead_strippable_dylib".as_bytes()) {
        Some(Switch::MarkDeadStrippableDylib)
    } else if bytes::same(opt, "-export_dynamic".as_bytes()) {
        Some(Switch::ExportDynamic)
    } else if bytes::same(opt, "--print-dependencies".as_bytes()) {
        Some(Switch::PrintDependencies)
    } else if bytes::same(opt, "-why_load".as_bytes()) || bytes::same(opt, "-whyload".as_bytes()) {
        Some(Switch::WhyLoad)
    } else if bytes::same(opt, "-t".as_bytes()) {
        Some(Switch::Trace)
    } else if bytes::same(opt, "-ignore_optimization_hints".as_bytes()) {
        Some(Switch::IgnoreOptimizationHints)
    } else if bytes::same(opt, "-print_statistics".as_bytes()) {
        Some(Switch::PrintStatistics)
    } else if bytes::same(opt, "-warn_duplicate_libraries".as_bytes()) {
        Some(Switch::WarnDuplicateLibraries)
    } else if bytes::same(opt, "-no_warn_duplicate_libraries".as_bytes()) {
        Some(Switch::NoWarnDuplicateLibraries)
    } else if bytes::same(opt, "-headerpad_max_install_names".as_bytes()) {
        Some(Switch::HeaderpadMaxInstallNames)
    } else if bytes::same(opt, "-no_deduplicate".as_bytes()) {
        Some(Switch::NoDeduplicate)
    } else if bytes::same(opt, "-function_starts".as_bytes()) {
        Some(Switch::FunctionStarts)
    } else if bytes::same(opt, "-init_offsets".as_bytes()) {
        Some(Switch::InitOffsets)
    } else if bytes::same(opt, "-data_const".as_bytes()) {
        Some(Switch::DataConst)
    } else if bytes::same(opt, "-no_data_const".as_bytes()) {
        Some(Switch::NoDataConst)
    } else if bytes::same(opt, "-no_implicit_dylibs".as_bytes()) {
        Some(Switch::NoImplicitDylibs)
    } else if bytes::same(opt, "-objc_relative_method_lists".as_bytes()) {
        Some(Switch::ObjcRelativeMethodLists)
    } else if bytes::same(opt, "-no_objc_relative_method_lists".as_bytes()) {
        Some(Switch::NoObjcRelativeMethodLists)
    } else if bytes::same(opt, "-objc_category_merging".as_bytes()) {
        Some(Switch::ObjcCategoryMerging)
    } else if bytes::same(opt, "-no_objc_category_merging".as_bytes()) {
        Some(Switch::NoObjcCategoryMerging)
    } else if bytes::same(opt, "-no_function_starts".as_bytes()) {
        Some(Switch::NoFunctionStarts)
    } else if bytes::same(opt, "-data_in_code_info".as_bytes()) {
        Some(Switch::DataInCodeInfo)
    } else if bytes::same(opt, "-split_seg_info".as_bytes()) {
        Some(Switch::SplitSegInfo)
    } else if bytes::same(opt, "-no_split_seg_info".as_bytes()) {
        Some(Switch::NoSplitSegInfo)
    } else if bytes::same(opt, "-no_data_in_code_info".as_bytes()) {
        Some(Switch::NoDataInCodeInfo)
    } else if bytes::same(opt, "-no_uuid".as_bytes()) {
        Some(Switch::NoUuid)
    } else if bytes::same(opt, "-version_load_command".as_bytes()) || bytes::same(opt, "-no_dead_strip_inits_and_terms".as_bytes()) || bytes::same(opt, "-reproducible".as_bytes()) || bytes::same(opt, "-debug_variant".as_bytes()) || bytes::same(opt, "-O0".as_bytes()) || bytes::same(opt, "-O1".as_bytes()) || bytes::same(opt, "-O2".as_bytes()) || bytes::same(opt, "-O3".as_bytes()) || bytes::same(opt, "-Os".as_bytes()) || bytes::same(opt, "-Oz".as_bytes()) {
        Some(Switch::Ignored)
    } else {
        None
    }
}

/// The switches after an option without arguments.
#[verifier::opaque]
pub open spec fn switched(s: Switches, w: Switch) -> Switches {
    match w {
        Switch::Dylib => Switches { output_type: MH_DYLIB, ..s },
        Switch::Bundle => Switches { output_type: MH_BUNDLE, ..s },
        Switch::KeepPrivateExterns => Switches { keep_private_externs: true, ..s },
        Switch::FixupChains => Switches { fixup_chains: Some(true), ..s },
        Switch::NoFixupChains => Switches { fixup_chains: Some(false), ..s },
        Switch::AdhocCodesign => Switches { adhoc_codesign: true, ..s },
        Switch::NoAdhocCodesign => Switches { adhoc_codesign: false, ..s },
        Switch::Dynamic => Switches { dynamic: true, ..s },
        Switch::Static => Switches { static_link: true, ..s },
        Switch::Pie => Switches { pie: true, ..s },
        Switch::NoPie => Switches { pie: false, ..s },
        Switch::StripLocals => Switches { strip_locals: true, ..s },
        Switch::NoStandardDirs => Switches { no_standard_dirs: true, ..s },
        Switch::Relocatable => Switches { relocatable: true, ..s },
        Switch::FlatNamespace => Switches { flat_namespace: true, ..s },
        Switch::TwolevelNamespace => Switches { flat_namespace: false, ..s },
        Switch::SuppressWarnings => Switches { suppress_warnings: true, ..s },
        Switch::FatalWarnings => Switches { fatal_warnings: true, ..s },
        Switch::Demangle => Switches { demangle: true, ..s },
        Switch::DeadStrip => Switches { dead_strip: true, ..s },
        Switch::DeadStripDylibs => Switches { dead_strip_dylibs: true, ..s },
        Switch::BindAtLoad => Switches { bind_at_load: true, ..s },
        Switch::ApplicationExtension => Switches { application_extension: true, ..s },
        Switch::NoApplicationExtension => Switches { application_extension: false, ..s },
        Switch::StripDebug => Switches { strip_debug: true, ..s },
        Switch::AllLoad => Switches { all_load: true, ..s },
        Switch::NoExportedSymbols => Switches { no_exported_symbols: true, ..s },
        Switch::Version => Switches { version_shown: true, ..s },
        Switch::NoallLoad => Switches { all_load: false, ..s },
        Switch::ObjC => Switches { load_objc: true, ..s },
        Switch::SearchPathsFirst => Switches { search_dylibs_first: false, ..s },
        Switch::SearchDylibsFirst => Switches { search_dylibs_first: true, ..s },
        Switch::MarkDeadStrippableDylib => Switches { mark_dead_strippable_dylib: true, ..s },
        Switch::ExportDynamic => Switches { export_dynamic: true, ..s },
        Switch::PrintDependencies => Switches { print_dependencies: true, ..s },
        Switch::WhyLoad => Switches { why_load: true, ..s },
        Switch::Trace => Switches { trace: true, ..s },
        Switch::IgnoreOptimizationHints => Switches { ignore_optimization_hints: true, ..s },
        Switch::PrintStatistics => Switches { perf: true, ..s },
        Switch::WarnDuplicateLibraries => Switches { warn_duplicate_libraries: true, ..s },
        Switch::NoWarnDuplicateLibraries => Switches { warn_duplicate_libraries: false, ..s },
        Switch::HeaderpadMaxInstallNames => Switches { headerpad: if s.headerpad < 1024 { 1024 } else { s.headerpad }, ..s },
        Switch::NoDeduplicate => Switches { deduplicate: false, ..s },
        Switch::FunctionStarts => Switches { function_starts: true, ..s },
        Switch::InitOffsets => Switches { init_offsets: true, ..s },
        Switch::DataConst => Switches { data_const: true, ..s },
        Switch::NoDataConst => Switches { data_const: false, ..s },
        Switch::NoImplicitDylibs => Switches { no_implicit_dylibs: true, ..s },
        Switch::ObjcRelativeMethodLists => Switches { objc_relative_method_lists: Some(true), ..s },
        Switch::NoObjcRelativeMethodLists => Switches { objc_relative_method_lists: Some(false), ..s },
        Switch::ObjcCategoryMerging => Switches { objc_category_merging: Some(true), ..s },
        Switch::NoObjcCategoryMerging => Switches { objc_category_merging: Some(false), ..s },
        Switch::NoFunctionStarts => Switches { function_starts: false, ..s },
        Switch::DataInCodeInfo => Switches { data_in_code_info: true, ..s },
        Switch::SplitSegInfo => Switches { split_seg_info: true, ..s },
        Switch::NoSplitSegInfo => Switches { split_seg_info: false, ..s },
        Switch::NoDataInCodeInfo => Switches { data_in_code_info: false, ..s },
        Switch::NoUuid => Switches { uuid: false, ..s },
        Switch::Ignored => s,
    }
}

/// Acts on an option without arguments.
pub fn apply_switch(s: Switches, w: Switch) -> (r: Switches)
    ensures
        r == switched(s, w),
{
    proof {
        reveal(switched);
    }
    match w {
        Switch::Dylib => Switches { output_type: MH_DYLIB, ..s },
        Switch::Bundle => Switches { output_type: MH_BUNDLE, ..s },
        Switch::KeepPrivateExterns => Switches { keep_private_externs: true, ..s },
        Switch::FixupChains => Switches { fixup_chains: Some(true), ..s },
        Switch::NoFixupChains => Switches { fixup_chains: Some(false), ..s },
        Switch::AdhocCodesign => Switches { adhoc_codesign: true, ..s },
        Switch::NoAdhocCodesign => Switches { adhoc_codesign: false, ..s },
        Switch::Dynamic => Switches { dynamic: true, ..s },
        Switch::Static => Switches { static_link: true, ..s },
        Switch::Pie => Switches { pie: true, ..s },
        Switch::NoPie => Switches { pie: false, ..s },
        Switch::StripLocals => Switches { strip_locals: true, ..s },
        Switch::NoStandardDirs => Switches { no_standard_dirs: true, ..s },
        Switch::Relocatable => Switches { relocatable: true, ..s },
        Switch::FlatNamespace => Switches { flat_namespace: true, ..s },
        Switch::TwolevelNamespace => Switches { flat_namespace: false, ..s },
        Switch::SuppressWarnings => Switches { suppress_warnings: true, ..s },
        Switch::FatalWarnings => Switches { fatal_warnings: true, ..s },
        Switch::Demangle => Switches { demangle: true, ..s },
        Switch::DeadStrip => Switches { dead_strip: true, ..s },
        Switch::DeadStripDylibs => Switches { dead_strip_dylibs: true, ..s },
        Switch::BindAtLoad => Switches { bind_at_load: true, ..s },
        Switch::ApplicationExtension => Switches { application_extension: true, ..s },
        Switch::NoApplicationExtension => Switches { application_extension: false, ..s },
        Switch::StripDebug => Switches { strip_debug: true, ..s },
        Switch::AllLoad => Switches { all_load: true, ..s },
        Switch::NoExportedSymbols => Switches { no_exported_symbols: true, ..s },
        Switch::Version => Switches { version_shown: true, ..s },
        Switch::NoallLoad => Switches { all_load: false, ..s },
        Switch::ObjC => Switches { load_objc: true, ..s },
        Switch::SearchPathsFirst => Switches { search_dylibs_first: false, ..s },
        Switch::SearchDylibsFirst => Switches { search_dylibs_first: true, ..s },
        Switch::MarkDeadStrippableDylib => Switches { mark_dead_strippable_dylib: true, ..s },
        Switch::ExportDynamic => Switches { export_dynamic: true, ..s },
        Switch::PrintDependencies => Switches { print_dependencies: true, ..s },
        Switch::WhyLoad => Switches { why_load: true, ..s },
        Switch::Trace => Switches { trace: true, ..s },
        Switch::IgnoreOptimizationHints => Switches { ignore_optimization_hints: true, ..s },
        Switch::PrintStatistics => Switches { perf: true, ..s },
        Switch::WarnDuplicateLibraries => Switches { warn_duplicate_libraries: true, ..s },
        Switch::NoWarnDuplicateLibraries => Switches { warn_duplicate_libraries: false, ..s },
        Switch::HeaderpadMaxInstallNames => Switches { headerpad: if s.headerpad < 1024 { 1024 } else { s.headerpad }, ..s },
        Switch::NoDeduplicate => Switches { deduplicate: false, ..s },
        Switch::FunctionStarts => Switches { function_starts: true, ..s },
        Switch::InitOffsets => Switches { init_offsets: true, ..s },
        Switch::DataConst => Switches { data_const: true, ..s },
        Switch::NoDataConst => Switches { data_const: false, ..s },
        Switch::NoImplicitDylibs => Switches { no_implicit_dylibs: true, ..s },
        Switch::ObjcRelativeMethodLists => Switches { objc_relative_method_lists: Some(true), ..s },
        Switch::NoObjcRelativeMethodLists => Switches { objc_relative_method_lists: Some(false), ..s },
        Switch::ObjcCategoryMerging => Switches { objc_category_merging: Some(true), ..s },
        Switch::NoObjcCategoryMerging => Switches { objc_category_merging: Some(false), ..s },
        Switch::NoFunctionStarts => Switches { function_starts: false, ..s },
        Switch::DataInCodeInfo => Switches { data_in_code_info: true, ..s },
        Switch::SplitSegInfo => Switches { split_seg_info: true, ..s },
        Switch::NoSplitSegInfo => Switches { split_seg_info: false, ..s },
        Switch::NoDataInCodeInfo => Switches { data_in_code_info: false, ..s },
        Switch::NoUuid => Switches { uuid: false, ..s },
        Switch::Ignored => s,
    }
}

/// What an option with arguments does, if it is one of this group.
#[verifier::opaque]
pub open spec fn plain_slot(opt: Seq<u8>) -> Option<Slot> {
    if opt == "-o".spec_bytes() {
        Some(Slot::One(OneSlot::Output))
    } else if opt == "-e".spec_bytes() {
        Some(Slot::One(OneSlot::Entry))
    } else if opt == "-install_name".spec_bytes() || opt == "-dylib_install_name".spec_bytes() {
        Some(Slot::One(OneSlot::InstallName))
    } else if opt == "-final_output".spec_bytes() {
        Some(Slot::One(OneSlot::FinalOutput))
    } else if opt == "-bundle_loader".spec_bytes() {
        Some(Slot::One(OneSlot::BundleLoader))
    } else if opt == "-map".spec_bytes() {
        Some(Slot::One(OneSlot::MapFile))
    } else if opt == "-sdk_imports".spec_bytes() {
        Some(Slot::One(OneSlot::SdkImports))
    } else if opt == "-lto_library".spec_bytes() {
        Some(Slot::One(OneSlot::LtoLibrary))
    } else if opt == "-dependency_info".spec_bytes() {
        Some(Slot::One(OneSlot::DependencyInfo))
    } else if opt == "-object_path_lto".spec_bytes() {
        Some(Slot::One(OneSlot::ObjectPathLto))
    } else if opt == "-executable_path".spec_bytes() {
        Some(Slot::One(OneSlot::ExecutablePath))
    } else if opt == "-umbrella".spec_bytes() {
        Some(Slot::One(OneSlot::Umbrella))
    } else if opt == "-oso_prefix".spec_bytes() {
        Some(Slot::One(OneSlot::OsoPrefix))
    } else if opt == "-client_name".spec_bytes() {
        Some(Slot::One(OneSlot::ClientName))
    } else if opt == "-mllvm".spec_bytes() {
        Some(Slot::One(OneSlot::Ignored))
    } else if opt == "-syslibroot".spec_bytes() {
        Some(Slot::Push(PushSlot::Syslibroot))
    } else if opt == "-L".spec_bytes() {
        Some(Slot::Push(PushSlot::LibraryPath))
    } else if opt == "-F".spec_bytes() {
        Some(Slot::Push(PushSlot::FrameworkPath))
    } else if opt == "-rpath".spec_bytes() {
        Some(Slot::Push(PushSlot::Rpath))
    } else if opt == "-add_ast_path".spec_bytes() {
        Some(Slot::Push(PushSlot::AstPath))
    } else if opt == "-u".spec_bytes() {
        Some(Slot::Push(PushSlot::ForcedUndefined))
    } else if opt == "-U".spec_bytes() {
        Some(Slot::Push(PushSlot::AllowedUndefined))
    } else if opt == "-order_file".spec_bytes() {
        Some(Slot::Push(PushSlot::OrderFile))
    } else if opt == "-allowable_client".spec_bytes() {
        Some(Slot::Push(PushSlot::AllowableClient))
    } else if opt == "-exported_symbol".spec_bytes() {
        Some(Slot::Push(PushSlot::ExportedSymbol))
    } else if opt == "-unexported_symbol".spec_bytes() {
        Some(Slot::Push(PushSlot::UnexportedSymbol))
    } else if opt == "-why_live".spec_bytes() {
        Some(Slot::Push(PushSlot::WhyLive))
    } else if opt == "-l".spec_bytes() {
        Some(Slot::Input(InputSlot::Lib))
    } else if opt == "-framework".spec_bytes() {
        Some(Slot::Input(InputSlot::Framework))
    } else if opt == "-weak_framework".spec_bytes() {
        Some(Slot::Input(InputSlot::WeakFramework))
    } else if opt == "-reexport_framework".spec_bytes() {
        Some(Slot::Input(InputSlot::ReexportFramework))
    } else if opt == "-needed_framework".spec_bytes() {
        Some(Slot::Input(InputSlot::NeededFramework))
    } else if opt == "-needed_library".spec_bytes() {
        Some(Slot::Input(InputSlot::NeededFile))
    } else if opt == "-weak_library".spec_bytes() {
        Some(Slot::Input(InputSlot::WeakFile))
    } else if opt == "-reexport_library".spec_bytes() {
        Some(Slot::Input(InputSlot::ReexportFile))
    } else if opt == "-sub_library".spec_bytes() {
        Some(Slot::Input(InputSlot::ReexportLib))
    } else if opt == "-force_load".spec_bytes() {
        Some(Slot::Input(InputSlot::ForceLoad))
    } else {
        None
    }
}

/// What an option with arguments does, if it is one of this group.
#[verifier::opaque]
pub open spec fn checked_slot(opt: Seq<u8>) -> Option<Slot> {
    if opt == "-arch".spec_bytes() {
        Some(Slot::Value(ValueSlot::Arch))
    } else if opt == "-headerpad".spec_bytes() {
        Some(Slot::Value(ValueSlot::Headerpad))
    } else if opt == "-pagezero_size".spec_bytes() {
        Some(Slot::Value(ValueSlot::PagezeroSize))
    } else if opt == "-image_base".spec_bytes() {
        Some(Slot::Value(ValueSlot::ImageBase))
    } else if opt == "-stack_size".spec_bytes() {
        Some(Slot::Value(ValueSlot::StackSize))
    } else if opt == "-current_version".spec_bytes() || opt == "-dylib_current_version".spec_bytes() {
        Some(Slot::Value(ValueSlot::CurrentVersion))
    } else if opt == "-compatibility_version".spec_bytes() || opt == "-dylib_compatibility_version".spec_bytes() {
        Some(Slot::Value(ValueSlot::CompatibilityVersion))
    } else if opt == "-macos_version_min".spec_bytes() || opt == "-macosx_version_min".spec_bytes() {
        Some(Slot::Value(ValueSlot::MacosVersionMin))
    } else if opt == "-undefined".spec_bytes() {
        Some(Slot::Value(ValueSlot::Undefined))
    } else if opt == "-platform_version".spec_bytes() {
        Some(Slot::Value(ValueSlot::PlatformVersion))
    } else if opt == "-segaddr".spec_bytes() {
        Some(Slot::Tuple(TupleSlot::Segaddr))
    } else if opt == "-segprot".spec_bytes() {
        Some(Slot::Tuple(TupleSlot::Segprot))
    } else if opt == "-segment_order".spec_bytes() {
        Some(Slot::Tuple(TupleSlot::SegmentOrder))
    } else if opt == "-rename_section".spec_bytes() {
        Some(Slot::Tuple(TupleSlot::RenameSection))
    } else if opt == "-rename_segment".spec_bytes() {
        Some(Slot::Tuple(TupleSlot::RenameSegment))
    } else if opt == "-sectcreate".spec_bytes() {
        Some(Slot::Tuple(TupleSlot::Sectcreate))
    } else if opt == "-add_empty_section".spec_bytes() {
        Some(Slot::Tuple(TupleSlot::AddEmptySection))
    } else if opt == "-sectalign".spec_bytes() {
        Some(Slot::Tuple(TupleSlot::Sectalign))
    } else if opt == "-alias".spec_bytes() {
        Some(Slot::Tuple(TupleSlot::Alias))
    } else if opt == "-filelist".spec_bytes() {
        Some(Slot::FromFile(FileSlot::Filelist))
    } else if opt == "-exported_symbols_list".spec_bytes() {
        Some(Slot::FromFile(FileSlot::Exported))
    } else if opt == "-unexported_symbols_list".spec_bytes() {
        Some(Slot::FromFile(FileSlot::Unexported))
    } else if opt == "-reexported_symbols_list".spec_bytes() {
        Some(Slot::FromFile(FileSlot::Reexported))
    } else if opt == "-non_global_symbols_strip_list".spec_bytes() {
        Some(Slot::FromFile(FileSlot::LocalStrip))
    } else if opt == "-non_global_symbols_keep_list".spec_bytes() {
        Some(Slot::FromFile(FileSlot::LocalKeep))
    } else if opt == "-alias_list".spec_bytes() {
        Some(Slot::FromFile(FileSlot::AliasList))
    } else {
        None
    }
}

/// What an option with arguments does, if it is one.
pub open spec fn slot_of(opt: Seq<u8>) -> Option<Slot> {
    match plain_slot(opt) {
        Some(s) => Some(s),
        None => checked_slot(opt),
    }
}

fn find_plain_slot(opt: &[u8]) -> (r: Option<Slot>)
    ensures
        r == plain_slot(opt@),
{
    proof {
        reveal(plain_slot);
    }
    if bytes::same(opt, "-o".as_bytes()) {
        Some(Slot::One(OneSlot::Output))
    } else if bytes::same(opt, "-e".as_bytes()) {
        Some(Slot::One(OneSlot::Entry))
    } else if bytes::same(opt, "-install_name".as_bytes()) || bytes::same(opt, "-dylib_install_name".as_bytes()) {
        Some(Slot::One(OneSlot::InstallName))
    } else if bytes::same(opt, "-final_output".as_bytes()) {
        Some(Slot::One(OneSlot::FinalOutput))
    } else if bytes::same(opt, "-bundle_loader".as_bytes()) {
        Some(Slot::One(OneSlot::BundleLoader))
    } else if bytes::same(opt, "-map".as_bytes()) {
        Some(Slot::One(OneSlot::MapFile))
    } else if bytes::same(opt, "-sdk_imports".as_bytes()) {
        Some(Slot::One(OneSlot::SdkImports))
    } else if bytes::same(opt, "-lto_library".as_bytes()) {
        Some(Slot::One(OneSlot::LtoLibrary))
    } else if bytes::same(opt, "-dependency_info".as_bytes()) {
        Some(Slot::One(OneSlot::DependencyInfo))
    } else if bytes::same(opt, "-object_path_lto".as_bytes()) {
        Some(Slot::One(OneSlot::ObjectPathLto))
    } else if bytes::same(opt, "-executable_path".as_bytes()) {
        Some(Slot::One(OneSlot::ExecutablePath))
    } else if bytes::same(opt, "-umbrella".as_bytes()) {
        Some(Slot::One(OneSlot::Umbrella))
    } else if bytes::same(opt, "-oso_prefix".as_bytes()) {
        Some(Slot::One(OneSlot::OsoPrefix))
    } else if bytes::same(opt, "-client_name".as_bytes()) {
        Some(Slot::One(OneSlot::ClientName))
    } else if bytes::same(opt, "-mllvm".as_bytes()) {
        Some(Slot::One(OneSlot::Ignored))
    } else if bytes::same(opt, "-syslibroot".as_bytes()) {
        Some(Slot::Push(PushSlot::Syslibroot))
    } else if bytes::same(opt, "-L".as_bytes()) {
        Some(Slot::Push(PushSlot::LibraryPath))
    } else if bytes::same(opt, "-F".as_bytes()) {
        Some(Slot::Push(PushSlot::FrameworkPath))
    } else if bytes::same(opt, "-rpath".as_bytes()) {
        Some(Slot::Push(PushSlot::Rpath))
    } else if bytes::same(opt, "-add_ast_path".as_bytes()) {
        Some(Slot::Push(PushSlot::AstPath))
    } else if bytes::same(opt, "-u".as_bytes()) {
        Some(Slot::Push(PushSlot::ForcedUndefined))
    } else if bytes::same(opt, "-U".as_bytes()) {
        Some(Slot::Push(PushSlot::AllowedUndefined))
    } else if bytes::same(opt, "-order_file".as_bytes()) {
        Some(Slot::Push(PushSlot::OrderFile))
    } else if bytes::same(opt, "-allowable_client".as_bytes()) {
        Some(Slot::Push(PushSlot::AllowableClient))
    } else if bytes::same(opt, "-exported_symbol".as_bytes()) {
        Some(Slot::Push(PushSlot::ExportedSymbol))
    } else if bytes::same(opt, "-unexported_symbol".as_bytes()) {
        Some(Slot::Push(PushSlot::UnexportedSymbol))
    } else if bytes::same(opt, "-why_live".as_bytes()) {
        Some(Slot::Push(PushSlot::WhyLive))
    } else if bytes::same(opt, "-l".as_bytes()) {
        Some(Slot::Input(InputSlot::Lib))
    } else if bytes::same(opt, "-framework".as_bytes()) {
        Some(Slot::Input(InputSlot::Framework))
    } else if bytes::same(opt, "-weak_framework".as_bytes()) {
        Some(Slot::Input(InputSlot::WeakFramework))
    } else if bytes::same(opt, "-reexport_framework".as_bytes()) {
        Some(Slot::Input(InputSlot::ReexportFramework))
    } else if bytes::same(opt, "-needed_framework".as_bytes()) {
        Some(Slot::Input(InputSlot::NeededFramework))
    } else if bytes::same(opt, "-needed_library".as_bytes()) {
        Some(Slot::Input(InputSlot::NeededFile))
    } else if bytes::same(opt, "-weak_library".as_bytes()) {
        Some(Slot::Input(InputSlot::WeakFile))
    } else if bytes::same(opt, "-reexport_library".as_bytes()) {
        Some(Slot::Input(InputSlot::ReexportFile))
    } else if bytes::same(opt, "-sub_library".as_bytes()) {
        Some(Slot::Input(InputSlot::ReexportLib))
    } else if bytes::same(opt, "-force_load".as_bytes()) {
        Some(Slot::Input(InputSlot::ForceLoad))
    } else {
        None
    }
}

fn find_checked_slot(opt: &[u8]) -> (r: Option<Slot>)
    ensures
        r == checked_slot(opt@),
{
    proof {
        reveal(checked_slot);
    }
    if bytes::same(opt, "-arch".as_bytes()) {
        Some(Slot::Value(ValueSlot::Arch))
    } else if bytes::same(opt, "-headerpad".as_bytes()) {
        Some(Slot::Value(ValueSlot::Headerpad))
    } else if bytes::same(opt, "-pagezero_size".as_bytes()) {
        Some(Slot::Value(ValueSlot::PagezeroSize))
    } else if bytes::same(opt, "-image_base".as_bytes()) {
        Some(Slot::Value(ValueSlot::ImageBase))
    } else if bytes::same(opt, "-stack_size".as_bytes()) {
        Some(Slot::Value(ValueSlot::StackSize))
    } else if bytes::same(opt, "-current_version".as_bytes()) || bytes::same(opt, "-dylib_current_version".as_bytes()) {
        Some(Slot::Value(ValueSlot::CurrentVersion))
    } else if bytes::same(opt, "-compatibility_version".as_bytes()) || bytes::same(opt, "-dylib_compatibility_version".as_bytes()) {
        Some(Slot::Value(ValueSlot::CompatibilityVersion))
    } else if bytes::same(opt, "-macos_version_min".as_bytes()) || bytes::same(opt, "-macosx_version_min".as_bytes()) {
        Some(Slot::Value(ValueSlot::MacosVersionMin))
    } else if bytes::same(opt, "-undefined".as_bytes()) {
        Some(Slot::Value(ValueSlot::Undefined))
    } else if bytes::same(opt, "-platform_version".as_bytes()) {
        Some(Slot::Value(ValueSlot::PlatformVersion))
    } else if bytes::same(opt, "-segaddr".as_bytes()) {
        Some(Slot::Tuple(TupleSlot::Segaddr))
    } else if bytes::same(opt, "-segprot".as_bytes()) {
        Some(Slot::Tuple(TupleSlot::Segprot))
    } else if bytes::same(opt, "-segment_order".as_bytes()) {
        Some(Slot::Tuple(TupleSlot::SegmentOrder))
    } else if bytes::same(opt, "-rename_section".as_bytes()) {
        Some(Slot::Tuple(TupleSlot::RenameSection))
    } else if bytes::same(opt, "-rename_segment".as_bytes()) {
        Some(Slot::Tuple(TupleSlot::RenameSegment))
    } else if bytes::same(opt, "-sectcreate".as_bytes()) {
        Some(Slot::Tuple(TupleSlot::Sectcreate))
    } else if bytes::same(opt, "-add_empty_section".as_bytes()) {
        Some(Slot::Tuple(TupleSlot::AddEmptySection))
    } else if bytes::same(opt, "-sectalign".as_bytes()) {
        Some(Slot::Tuple(TupleSlot::Sectalign))
    } else if bytes::same(opt, "-alias".as_bytes()) {
        Some(Slot::Tuple(TupleSlot::Alias))
    } else if bytes::same(opt, "-filelist".as_bytes()) {
        Some(Slot::FromFile(FileSlot::Filelist))
    } else if bytes::same(opt, "-exported_symbols_list".as_bytes()) {
        Some(Slot::FromFile(FileSlot::Exported))
    } else if bytes::same(opt, "-unexported_symbols_list".as_bytes()) {
        Some(Slot::FromFile(FileSlot::Unexported))
    } else if bytes::same(opt, "-reexported_symbols_list".as_bytes()) {
        Some(Slot::FromFile(FileSlot::Reexported))
    } else if bytes::same(opt, "-non_global_symbols_strip_list".as_bytes()) {
        Some(Slot::FromFile(FileSlot::LocalStrip))
    } else if bytes::same(opt, "-non_global_symbols_keep_list".as_bytes()) {
        Some(Slot::FromFile(FileSlot::LocalKeep))
    } else if bytes::same(opt, "-alias_list".as_bytes()) {
        Some(Slot::FromFile(FileSlot::AliasList))
    } else {
        None
    }
}

/// Finds what an option with arguments does.
pub fn find_slot(opt: &[u8]) -> (r: Option<Slot>)
    ensures
        r == slot_of(opt@),
{
    match find_plain_slot(opt) {
        Some(s) => Some(s),
        None => find_checked_slot(opt),
    }
}

/// The arguments an option takes.
#[verifier::opaque]
pub open spec fn kinds_of(slot: Slot) -> Seq<ArgKind> {
    match slot {
        Slot::One(OneSlot::Output) => seq![ArgKind::Raw],
        Slot::One(OneSlot::Entry) => seq![ArgKind::Text],
        Slot::One(OneSlot::InstallName) => seq![ArgKind::Raw],
        Slot::One(OneSlot::FinalOutput) => seq![ArgKind::Raw],
        Slot::One(OneSlot::BundleLoader) => seq![ArgKind::Raw],
        Slot::One(OneSlot::MapFile) => seq![ArgKind::Raw],
        Slot::One(OneSlot::SdkImports) => seq![ArgKind::Raw],
        Slot::One(OneSlot::LtoLibrary) => seq![ArgKind::Raw],
        Slot::One(OneSlot::DependencyInfo) => seq![ArgKind::Raw],
        Slot::One(OneSlot::ObjectPathLto) => seq![ArgKind::Raw],
        Slot::One(OneSlot::ExecutablePath) => seq![ArgKind::Raw],
        Slot::One(OneSlot::Umbrella) => seq![ArgKind::Raw],
        Slot::One(OneSlot::OsoPrefix) => seq![ArgKind::Raw],
        Slot::One(OneSlot::ClientName) => seq![ArgKind::Raw],
        Slot::One(OneSlot::Ignored) => seq![ArgKind::Raw],
        Slot::Push(PushSlot::Syslibroot) => seq![ArgKind::Raw],
        Slot::Push(PushSlot::LibraryPath) => seq![ArgKind::Raw],
        Slot::Push(PushSlot::FrameworkPath) => seq![ArgKind::Raw],
        Slot::Push(PushSlot::Rpath) => seq![ArgKind::Raw],
        Slot::Push(PushSlot::AstPath) => seq![ArgKind::Raw],
        Slot::Push(PushSlot::ForcedUndefined) => seq![ArgKind::Text],
        Slot::Push(PushSlot::AllowedUndefined) => seq![ArgKind::Text],
        Slot::Push(PushSlot::OrderFile) => seq![ArgKind::Raw],
        Slot::Push(PushSlot::AllowableClient) => seq![ArgKind::Raw],
        Slot::Push(PushSlot::ExportedSymbol) => seq![ArgKind::Pattern],
        Slot::Push(PushSlot::UnexportedSymbol) => seq![ArgKind::Pattern],
        Slot::Push(PushSlot::WhyLive) => seq![ArgKind::Pattern],
        Slot::Input(InputSlot::Lib) => seq![ArgKind::Raw],
        Slot::Input(InputSlot::Framework) => seq![ArgKind::Raw],
        Slot::Input(InputSlot::WeakFramework) => seq![ArgKind::Raw],
        Slot::Input(InputSlot::ReexportFramework) => seq![ArgKind::Raw],
        Slot::Input(InputSlot::NeededFramework) => seq![ArgKind::Raw],
        Slot::Input(InputSlot::NeededFile) => seq![ArgKind::Raw],
        Slot::Input(InputSlot::WeakFile) => seq![ArgKind::Raw],
        Slot::Input(InputSlot::ReexportFile) => seq![ArgKind::Raw],
        Slot::Input(InputSlot::ReexportLib) => seq![ArgKind::Raw],
        Slot::Input(InputSlot::ForceLoad) => seq![ArgKind::Raw],
        Slot::Value(ValueSlot::Arch) => seq![ArgKind::Target],
        Slot::Value(ValueSlot::Headerpad) => seq![ArgKind::Hex],
        Slot::Value(ValueSlot::PagezeroSize) => seq![ArgKind::Hex],
        Slot::Value(ValueSlot::ImageBase) => seq![ArgKind::Hex],
        Slot::Value(ValueSlot::StackSize) => seq![ArgKind::Hex],
        Slot::Value(ValueSlot::CurrentVersion) => seq![ArgKind::Version],
        Slot::Value(ValueSlot::CompatibilityVersion) => seq![ArgKind::Version],
        Slot::Value(ValueSlot::MacosVersionMin) => seq![ArgKind::Version],
        Slot::Value(ValueSlot::Undefined) => seq![ArgKind::Treatment],
        Slot::Value(ValueSlot::PlatformVersion) => seq![ArgKind::Platform, ArgKind::Version, ArgKind::Version],
        Slot::Tuple(TupleSlot::Segaddr) => seq![ArgKind::Text, ArgKind::Hex],
        Slot::Tuple(TupleSlot::Segprot) => seq![ArgKind::Text, ArgKind::Prot, ArgKind::Prot],
        Slot::Tuple(TupleSlot::SegmentOrder) => seq![ArgKind::Text],
        Slot::Tuple(TupleSlot::RenameSection) => seq![ArgKind::Text, ArgKind::Text, ArgKind::Text, ArgKind::Text],
        Slot::Tuple(TupleSlot::RenameSegment) => seq![ArgKind::Text, ArgKind::Text],
        Slot::Tuple(TupleSlot::Sectcreate) => seq![ArgKind::Text, ArgKind::Text, ArgKind::Raw],
        Slot::Tuple(TupleSlot::AddEmptySection) => seq![ArgKind::Text, ArgKind::Text],
        Slot::Tuple(TupleSlot::Sectalign) => seq![ArgKind::Text, ArgKind::Text, ArgKind::Align],
        Slot::Tuple(TupleSlot::Alias) => seq![ArgKind::Text, ArgKind::Text],
        Slot::FromFile(FileSlot::Filelist) => seq![ArgKind::FileList],
        Slot::FromFile(FileSlot::Exported) => seq![ArgKind::ListFile],
        Slot::FromFile(FileSlot::Unexported) => seq![ArgKind::ListFile],
        Slot::FromFile(FileSlot::Reexported) => seq![ArgKind::ListFile],
        Slot::FromFile(FileSlot::LocalStrip) => seq![ArgKind::ListFile],
        Slot::FromFile(FileSlot::LocalKeep) => seq![ArgKind::ListFile],
        Slot::FromFile(FileSlot::AliasList) => seq![ArgKind::AliasFile],
    }
}

/// Lists the arguments an option takes.
pub fn list_kinds(slot: Slot) -> (r: Vec<ArgKind>)
    ensures
        r@ == kinds_of(slot),
{
    proof {
        reveal(kinds_of);
    }
    let r: Vec<ArgKind> = match slot {
        Slot::One(OneSlot::Output) => vec![ArgKind::Raw],
        Slot::One(OneSlot::Entry) => vec![ArgKind::Text],
        Slot::One(OneSlot::InstallName) => vec![ArgKind::Raw],
        Slot::One(OneSlot::FinalOutput) => vec![ArgKind::Raw],
        Slot::One(OneSlot::BundleLoader) => vec![ArgKind::Raw],
        Slot::One(OneSlot::MapFile) => vec![ArgKind::Raw],
        Slot::One(OneSlot::SdkImports) => vec![ArgKind::Raw],
        Slot::One(OneSlot::LtoLibrary) => vec![ArgKind::Raw],
        Slot::One(OneSlot::DependencyInfo) => vec![ArgKind::Raw],
        Slot::One(OneSlot::ObjectPathLto) => vec![ArgKind::Raw],
        Slot::One(OneSlot::ExecutablePath) => vec![ArgKind::Raw],
        Slot::One(OneSlot::Umbrella) => vec![ArgKind::Raw],
        Slot::One(OneSlot::OsoPrefix) => vec![ArgKind::Raw],
        Slot::One(OneSlot::ClientName) => vec![ArgKind::Raw],
        Slot::One(OneSlot::Ignored) => vec![ArgKind::Raw],
        Slot::Push(PushSlot::Syslibroot) => vec![ArgKind::Raw],
        Slot::Push(PushSlot::LibraryPath) => vec![ArgKind::Raw],
        Slot::Push(PushSlot::FrameworkPath) => vec![ArgKind::Raw],
        Slot::Push(PushSlot::Rpath) => vec![ArgKind::Raw],
        Slot::Push(PushSlot::AstPath) => vec![ArgKind::Raw],
        Slot::Push(PushSlot::ForcedUndefined) => vec![ArgKind::Text],
        Slot::Push(PushSlot::AllowedUndefined) => vec![ArgKind::Text],
        Slot::Push(PushSlot::OrderFile) => vec![ArgKind::Raw],
        Slot::Push(PushSlot::AllowableClient) => vec![ArgKind::Raw],
        Slot::Push(PushSlot::ExportedSymbol) => vec![ArgKind::Pattern],
        Slot::Push(PushSlot::UnexportedSymbol) => vec![ArgKind::Pattern],
        Slot::Push(PushSlot::WhyLive) => vec![ArgKind::Pattern],
        Slot::Input(InputSlot::Lib) => vec![ArgKind::Raw],
        Slot::Input(InputSlot::Framework) => vec![ArgKind::Raw],
        Slot::Input(InputSlot::WeakFramework) => vec![ArgKind::Raw],
        Slot::Input(InputSlot::ReexportFramework) => vec![ArgKind::Raw],
        Slot::Input(InputSlot::NeededFramework) => vec![ArgKind::Raw],
        Slot::Input(InputSlot::NeededFile) => vec![ArgKind::Raw],
        Slot::Input(InputSlot::WeakFile) => vec![ArgKind::Raw],
        Slot::Input(InputSlot::ReexportFile) => vec![ArgKind::Raw],
        Slot::Input(InputSlot::ReexportLib) => vec![ArgKind::Raw],
        Slot::Input(InputSlot::ForceLoad) => vec![ArgKind::Raw],
        Slot::Value(ValueSlot::Arch) => vec![ArgKind::Target],
        Slot::Value(ValueSlot::Headerpad) => vec![ArgKind::Hex],
        Slot::Value(ValueSlot::PagezeroSize) => vec![ArgKind::Hex],
        Slot::Value(ValueSlot::ImageBase) => vec![ArgKind::Hex],
        Slot::Value(ValueSlot::StackSize) => vec![ArgKind::Hex],
        Slot::Value(ValueSlot::CurrentVersion) => vec![ArgKind::Version],
        Slot::Value(ValueSlot::CompatibilityVersion) => vec![ArgKind::Version],
        Slot::Value(ValueSlot::MacosVersionMin) => vec![ArgKind::Version],
        Slot::Value(ValueSlot::Undefined) => vec![ArgKind::Treatment],
        Slot::Value(ValueSlot::PlatformVersion) => vec![ArgKind::Platform, ArgKind::Version, ArgKind::Version],
        Slot::Tuple(TupleSlot::Segaddr) => vec![ArgKind::Text, ArgKind::Hex],
        Slot::Tuple(TupleSlot::Segprot) => vec![ArgKind::Text, ArgKind::Prot, ArgKind::Prot],
        Slot::Tuple(TupleSlot::SegmentOrder) => vec![ArgKind::Text],
        Slot::Tuple(TupleSlot::RenameSection) => vec![ArgKind::Text, ArgKind::Text, ArgKind::Text, ArgKind::Text],
        Slot::Tuple(TupleSlot::RenameSegment) => vec![ArgKind::Text, ArgKind::Text],
        Slot::Tuple(TupleSlot::Sectcreate) => vec![ArgKind::Text, ArgKind::Text, ArgKind::Raw],
        Slot::Tuple(TupleSlot::AddEmptySection) => vec![ArgKind::Text, ArgKind::Text],
        Slot::Tuple(TupleSlot::Sectalign) => vec![ArgKind::Text, ArgKind::Text, ArgKind::Align],
        Slot::Tuple(TupleSlot::Alias) => vec![ArgKind::Text, ArgKind::Text],
        Slot::FromFile(FileSlot::Filelist) => vec![ArgKind::FileList],
        Slot::FromFile(FileSlot::Exported) => vec![ArgKind::ListFile],
        Slot::FromFile(FileSlot::Unexported) => vec![ArgKind::ListFile],
        Slot::FromFile(FileSlot::Reexported) => vec![ArgKind::ListFile],
        Slot::FromFile(FileSlot::LocalStrip) => vec![ArgKind::ListFile],
        Slot::FromFile(FileSlot::LocalKeep) => vec![ArgKind::ListFile],
        Slot::FromFile(FileSlot::AliasList) => vec![ArgKind::AliasFile],
    };
    assert(r@ =~= kinds_of(slot));
    r
}

/// How many arguments options take.
pub proof fn lemma_kinds(slot: Slot)
    ensures
        1 <= kinds_of(slot).len() <= 4,
        match slot {
            Slot::One(_s) => kinds_of(slot).len() == 1,
            Slot::Push(_s) => kinds_of(slot).len() == 1,
            Slot::Input(_s) => kinds_of(slot).len() == 1,
            Slot::Value(s) => s == ValueSlot::PlatformVersion ==> kinds_of(slot).len() == 3,
            Slot::Tuple(s) => kinds_of(slot).len() == group_size(s),
            Slot::FromFile(s) => kinds_of(slot).len() == 1 && (s == FileSlot::AliasList
                ==> kinds_of(slot)[0] == ArgKind::AliasFile),
        },
{
    reveal(kinds_of);
}

/// How many arguments a group has.
pub open spec fn group_size(s: TupleSlot) -> int {
    match s {
        TupleSlot::Segaddr => 2,
        TupleSlot::Segprot => 3,
        TupleSlot::SegmentOrder => 1,
        TupleSlot::RenameSection => 4,
        TupleSlot::RenameSegment => 2,
        TupleSlot::Sectcreate => 3,
        TupleSlot::AddEmptySection => 2,
        TupleSlot::Sectalign => 3,
        TupleSlot::Alias => 2,
    }
}

/// The target of a name.
pub open spec fn target_named(name: Seq<u8>) -> Option<TargetName> {
    if name == "arm64".spec_bytes() {
        Some(TargetName::Arm64)
    } else if name == "x86_64".spec_bytes() {
        Some(TargetName::X86_64)
    } else {
        None
    }
}

/// Finds the target of a name.
pub fn canonical_name(name: &[u8]) -> (r: Option<TargetName>)
    ensures
        r == target_named(name@),
{
    if bytes::same(name, "arm64".as_bytes()) {
        Some(TargetName::Arm64)
    } else if bytes::same(name, "x86_64".as_bytes()) {
        Some(TargetName::X86_64)
    } else {
        None
    }
}

/// The platform of a name or number.
pub open spec fn platform_named(name: Seq<u8>) -> Option<u32> {
    if name == "macos".spec_bytes() || name == "macosx".spec_bytes() || name
        == "1".spec_bytes() {
        Some(PLATFORM_MACOS)
    } else {
        None
    }
}

/// Finds the platform of a name or of its number.
pub fn parse_platform(arg: &[u8]) -> (r: Option<u32>)
    ensures
        r == platform_named(arg@),
{
    if bytes::same(arg, "macos".as_bytes()) || bytes::same(arg, "macosx".as_bytes())
        || bytes::same(arg, "1".as_bytes()) {
        Some(PLATFORM_MACOS)
    } else {
        None
    }
}

/// A part of a version: 0 if it is missing.
pub open spec fn version_part(parts: Seq<Seq<u8>>, i: int) -> Option<int> {
    if i >= parts.len() {
        Some(0)
    } else {
        text::parsed(parts[i], 10, u32::MAX as int)
    }
}

/// The version word of an X.Y.Z version.
pub open spec fn version_of(arg: Seq<u8>) -> Option<u32> {
    let parts = text::split(arg, 46);
    match (version_part(parts, 0), version_part(parts, 1), version_part(parts, 2)) {
        (Some(a), Some(b), Some(c)) => Some(
            crate::macho::version_word(a as u32, b as u32, c as u32),
        ),
        _ => None,
    }
}

fn parse_part(parts: &Vec<Vec<u8>>, i: usize) -> (r: Option<u32>)
    ensures
        match r {
            Some(n) => version_part(bytes::views(parts@), i as int) == Some(n as int),
            None => version_part(bytes::views(parts@), i as int) is None,
        },
{
    if i >= parts.len() {
        return Some(0);
    }
    assert(bytes::views(parts@)[i as int] == parts[i as int]@);
    match text::parse_number(parts[i].as_slice(), 10, 0xffff_ffff) {
        Some(n) => Some(n as u32),
        None => None,
    }
}

/// Reads an X.Y.Z version.
pub fn parse_version(arg: &[u8]) -> (r: Option<u32>)
    ensures
        r == version_of(arg@),
{
    let parts: Vec<Vec<u8>> = text::split_at(arg, 46);
    match (parse_part(&parts, 0), parse_part(&parts, 1), parse_part(&parts, 2)) {
        (Some(a), Some(b), Some(c)) => Some(crate::macho::encode_version(a, b, c)),
        _ => None,
    }
}

/// `s` without any number of 0x in front.
pub open spec fn without_0x(s: Seq<u8>) -> Seq<u8>
    decreases s.len(),
{
    if s.len() >= 2 && s[0] == 48 && s[1] == 120 {
        without_0x(s.skip(2))
    } else {
        s
    }
}

/// The value of a hexadecimal number, with or without 0x in front.
pub open spec fn hex_of(val: Seq<u8>) -> Option<int> {
    text::parsed(without_0x(val), 16, u64::MAX as int)
}

/// Reads a hexadecimal number, with or without 0x in front.
pub fn parse_hex(val: &[u8]) -> (r: Option<u64>)
    ensures
        match r {
            Some(n) => hex_of(val@) == Some(n as int),
            None => hex_of(val@) is None,
        },
{
    let mut i: usize = 0;
    assert(val@.skip(0) =~= val@);
    while val.len() - i >= 2 && val[i] == 48 && val[i + 1] == 120
        invariant
            i <= val.len(),
            without_0x(val@) == without_0x(val@.skip(i as int)),
        decreases val.len() - i,
    {
        assert(val@.skip(i as int).skip(2) =~= val@.skip(i + 2));
        i += 2;
    }
    let rest = vstd::slice::slice_subrange(val, i, val.len());
    assert(rest@ =~= val@.skip(i as int));
    text::parse_number(rest, 16, u64::MAX)
}

/// The protection that letters ask for.
pub open spec fn prot_from(val: Seq<u8>, i: int, prot: u8) -> Option<u8>
    decreases val.len() - i,
{
    if i < 0 || i >= val.len() {
        Some(prot)
    } else if val[i] == 114 {
        prot_from(val, i + 1, prot | 1)
    } else if val[i] == 119 {
        prot_from(val, i + 1, prot | 2)
    } else if val[i] == 120 {
        prot_from(val, i + 1, prot | 4)
    } else if val[i] == 45 {
        prot_from(val, i + 1, prot)
    } else {
        None
    }
}

/// Reads a protection string: "r", "w" and "x", with "-" for none.
pub fn parse_prot(val: &[u8]) -> (r: Option<u8>)
    ensures
        r == prot_from(val@, 0, 0),
{
    let mut prot: u8 = 0;
    let mut i: usize = 0;
    while i < val.len()
        invariant
            i <= val.len(),
            prot_from(val@, 0, 0) == prot_from(val@, i as int, prot),
        decreases val.len() - i,
    {
        if val[i] == 114 {
            prot = prot | 1;
        } else if val[i] == 119 {
            prot = prot | 2;
        } else if val[i] == 120 {
            prot = prot | 4;
        } else if val[i] != 45 {
            return None;
        }
        i += 1;
    }
    Some(prot)
}

/// The exponent of a power of two.
pub open spec fn exponent(v: int) -> Option<int>
    decreases v,
{
    if v <= 0 {
        None
    } else if v == 1 {
        Some(0)
    } else if v % 2 != 0 {
        None
    } else {
        match exponent(v / 2) {
            Some(p) => Some(p + 1),
            None => None,
        }
    }
}

/// Finds the exponent of a power of two.
pub fn find_exponent(v: u64) -> (r: Option<u8>)
    ensures
        match r {
            Some(p) => exponent(v as int) == Some(p as int) && p < 64,
            None => exponent(v as int) is None,
        },
{
    let mut w: u64 = v;
    let mut p: u8 = 0;
    if v == 0 {
        return None;
    }
    let ghost mut cap: int = 0x1_0000_0000_0000_0000;
    let ghost mut left: int = 64;
    proof {
        vstd::arithmetic::power2::lemma2_to64();
        vstd::arithmetic::power2::lemma2_to64_rest();
    }
    while w % 2 == 0
        invariant
            0 < w,
            p + left == 64,
            0 <= left,
            w < vstd::arithmetic::power2::pow2(left as nat),
            match exponent(w as int) {
                Some(q) => exponent(v as int) == Some(q + p),
                None => exponent(v as int) is None,
            },
        decreases w,
    {
        proof {
            vstd::arithmetic::power2::lemma2_to64();
            if left == 0 {
                assert(w < 1);
            }
            vstd::arithmetic::power2::lemma_pow2_unfold(left as nat);
            left = left - 1;
        }
        w = w / 2;
        p = p + 1;
    }
    proof {
        vstd::arithmetic::power2::lemma2_to64();
        if left == 0 {
            assert(w < 1);
        }
    }
    if w == 1 {
        Some(p)
    } else {
        None
    }
}

/// No option without arguments changes the size of page zero.
pub(crate) proof fn lemma_switch_keeps_page_zero(s: Switches, w: Switch)
    ensures
        switched(s, w).pagezero_size == s.pagezero_size,
        switched(s, w).explicit_pagezero == s.explicit_pagezero,
{
    reveal(switched);
}

/// Only -pagezero_size sets the size of page zero.
pub(crate) proof fn lemma_page_zero_option(opt: Seq<u8>)
    ensures
        slot_of(opt) == Some(Slot::Value(ValueSlot::PagezeroSize)) ==> opt
            == "-pagezero_size".spec_bytes(),
{
    reveal(plain_slot);
    reveal(checked_slot);
}

} // verus!
