//! Parsed command line arguments.
use crate::macho::consts::{MH_EXECUTE, PLATFORM_MACOS};
use crate::util::bytes;
use vstd::prelude::*;
use vstd::string::*;

verus! {

/// The targets.
#[derive(Clone, Copy, Debug, PartialEq, Eq, Structural)]
pub enum TargetName {
    Arm64,
    X86_64,
}

/// An input in command line order.
#[derive(Debug, Clone)]
pub enum InputArg {
    /// A file path.
    File(Vec<u8>),
    /// `-lfoo`: a library to search for in the library paths. The flag
    /// marks a weak library.
    Lib(Vec<u8>, bool),
    /// `-framework Foo`: a framework to search for in the framework paths.
    /// The flag marks a weak framework.
    Framework(Vec<u8>, bool),
    /// `-force_load path`: an archive all of whose members are linked.
    ForceLoad(Vec<u8>),
    /// `-weak_library path`: a dylib whose absence is tolerated at load
    /// time.
    WeakFile(Vec<u8>),
    /// `-reexport-lfoo`: a dylib whose exports this dylib re-exports.
    ReexportLib(Vec<u8>),
    ReexportFile(Vec<u8>),
    ReexportFramework(Vec<u8>),
    /// `-hidden-lfoo`: an archive whose external symbols are demoted to
    /// private externals.
    HiddenLib(Vec<u8>),
    /// `-needed-lfoo`: always keep the dylib's load command.
    NeededLib(Vec<u8>),
    NeededFramework(Vec<u8>),
    NeededFile(Vec<u8>),
}

/// An input, as mathematical values.
#[verifier::ext_equal]
pub enum InputView {
    File(Seq<u8>),
    Lib(Seq<u8>, bool),
    Framework(Seq<u8>, bool),
    ForceLoad(Seq<u8>),
    WeakFile(Seq<u8>),
    ReexportLib(Seq<u8>),
    ReexportFile(Seq<u8>),
    ReexportFramework(Seq<u8>),
    HiddenLib(Seq<u8>),
    NeededLib(Seq<u8>),
    NeededFramework(Seq<u8>),
    NeededFile(Seq<u8>),
}

impl View for InputArg {
    type V = InputView;

    open spec fn view(&self) -> InputView {
        match self {
            InputArg::File(p) => InputView::File(p@),
            InputArg::Lib(p, weak) => InputView::Lib(p@, *weak),
            InputArg::Framework(p, weak) => InputView::Framework(p@, *weak),
            InputArg::ForceLoad(p) => InputView::ForceLoad(p@),
            InputArg::WeakFile(p) => InputView::WeakFile(p@),
            InputArg::ReexportLib(p) => InputView::ReexportLib(p@),
            InputArg::ReexportFile(p) => InputView::ReexportFile(p@),
            InputArg::ReexportFramework(p) => InputView::ReexportFramework(p@),
            InputArg::HiddenLib(p) => InputView::HiddenLib(p@),
            InputArg::NeededLib(p) => InputView::NeededLib(p@),
            InputArg::NeededFramework(p) => InputView::NeededFramework(p@),
            InputArg::NeededFile(p) => InputView::NeededFile(p@),
        }
    }
}

pub open spec fn input_views(v: Seq<InputArg>) -> Seq<InputView> {
    v.map_values(|a: InputArg| a@)
}

pub open spec fn opt_view(o: Option<Vec<u8>>) -> Option<Seq<u8>> {
    match o {
        Some(v) => Some(v@),
        None => None,
    }
}

pub open spec fn opt_views(o: Option<Vec<Vec<u8>>>) -> Option<Seq<Seq<u8>>> {
    match o {
        Some(v) => Some(bytes::views(v@)),
        None => None,
    }
}

pub open spec fn pair_views(v: Seq<(Vec<u8>, Vec<u8>)>) -> Seq<(Seq<u8>, Seq<u8>)> {
    v.map_values(|t: (Vec<u8>, Vec<u8>)| (t.0@, t.1@))
}

pub open spec fn triple_views(v: Seq<(Vec<u8>, Vec<u8>, Vec<u8>)>) -> Seq<
    (Seq<u8>, Seq<u8>, Seq<u8>),
> {
    v.map_values(|t: (Vec<u8>, Vec<u8>, Vec<u8>)| (t.0@, t.1@, t.2@))
}

pub open spec fn quad_views(v: Seq<(Vec<u8>, Vec<u8>, Vec<u8>, Vec<u8>)>) -> Seq<
    (Seq<u8>, Seq<u8>, Seq<u8>, Seq<u8>),
> {
    v.map_values(|t: (Vec<u8>, Vec<u8>, Vec<u8>, Vec<u8>)| (t.0@, t.1@, t.2@, t.3@))
}

pub open spec fn align_views(v: Seq<(Vec<u8>, Vec<u8>, u8)>) -> Seq<(Seq<u8>, Seq<u8>, u8)> {
    v.map_values(|t: (Vec<u8>, Vec<u8>, u8)| (t.0@, t.1@, t.2))
}

pub open spec fn addr_views(v: Seq<(Vec<u8>, u64)>) -> Seq<(Seq<u8>, u64)> {
    v.map_values(|t: (Vec<u8>, u64)| (t.0@, t.1))
}

pub open spec fn prot_views(v: Seq<(Vec<u8>, u8, u8)>) -> Seq<(Seq<u8>, u8, u8)> {
    v.map_values(|t: (Vec<u8>, u8, u8)| (t.0@, t.1, t.2))
}

/// The arguments that are switches and numbers.
#[derive(Clone, Copy, Debug)]
pub struct Switches {
    /// The output file type: MH_EXECUTE, MH_DYLIB or MH_BUNDLE.
    pub output_type: u32,
    /// -arch: the target's name.
    pub arch: Option<TargetName>,
    /// The platform of the output.
    pub platform: u32,
    /// The deployment target.
    pub platform_minos: u32,
    /// The SDK version.
    pub platform_sdk: u32,
    /// The dylib's current version.
    pub current_version: u32,
    /// The dylib's compatibility version.
    pub compatibility_version: u32,
    /// -keep_private_externs: a -r output keeps private externals as such.
    pub keep_private_externs: bool,
    /// Sign the output ad hoc.
    pub adhoc_codesign: bool,
    /// -dead_strip: remove what nothing refers to.
    pub dead_strip: bool,
    /// -S: do not emit debug stab symbols.
    pub strip_debug: bool,
    /// -all_load: link every archive member.
    pub all_load: bool,
    /// -ObjC: link archive members that define Objective-C classes.
    pub load_objc: bool,
    /// -no_exported_symbols: hide every definition.
    pub no_exported_symbols: bool,
    /// Emit chained fixups instead of classic dyld info, if decided.
    pub fixup_chains: Option<bool>,
    /// -stack_size: the main thread's stack size.
    pub stack_size: u64,
    /// -r: produce a relocatable object.
    pub relocatable: bool,
    /// -flat_namespace: bind imports by name alone.
    pub flat_namespace: bool,
    /// -Z: do not search the standard directories.
    pub no_standard_dirs: bool,
    /// -x: strip non-global symbols.
    pub strip_locals: bool,
    /// Fold identical functions.
    pub deduplicate: bool,
    /// Emit LC_FUNCTION_STARTS.
    pub function_starts: bool,
    /// Emit LC_DATA_IN_CODE.
    pub data_in_code_info: bool,
    /// Emit LC_SEGMENT_SPLIT_INFO.
    pub split_seg_info: bool,
    /// -init_offsets: emit initializers as 32-bit image offsets.
    pub init_offsets: bool,
    /// Put read-only-after-fixup data in __DATA_CONST.
    pub data_const: bool,
    /// -no_implicit_dylibs: do not bind through a re-export.
    pub no_implicit_dylibs: bool,
    /// Rewrite method lists in the relative form, if decided.
    pub objc_relative_method_lists: Option<bool>,
    /// Merge categories into their classes, if decided.
    pub objc_category_merging: Option<bool>,
    /// Compute a content-hash LC_UUID.
    pub uuid: bool,
    /// -w: suppress warnings.
    pub suppress_warnings: bool,
    /// -fatal_warnings: treat warnings as errors.
    pub fatal_warnings: bool,
    /// -demangle: demangle names in messages.
    pub demangle: bool,
    /// Leave unresolved symbols to be looked up at run time.
    pub undefined_dynamic_lookup: bool,
    /// Report unresolved symbols without failing.
    pub undefined_warning: bool,
    /// -undefined warning specifically.
    pub undefined_is_warning: bool,
    /// -dead_strip_dylibs: drop load commands nothing binds to.
    pub dead_strip_dylibs: bool,
    /// -bind_at_load: resolve all bindings at load time.
    pub bind_at_load: bool,
    /// -application_extension: mark the image safe for app extensions.
    pub application_extension: bool,
    /// Produce a dynamically linked image.
    pub dynamic: bool,
    /// How much room to leave behind the load commands.
    pub headerpad: u64,
    /// -search_dylibs_first: look for dylibs on every path first.
    pub search_dylibs_first: bool,
    /// -mark_dead_strippable_dylib.
    pub mark_dead_strippable_dylib: bool,
    /// -export_dynamic: keep all global symbols through LTO.
    pub export_dynamic: bool,
    /// --print-dependencies.
    pub print_dependencies: bool,
    /// -why_load: report why archive members load.
    pub why_load: bool,
    /// -t: print each file that takes part in the link.
    pub trace: bool,
    /// -ignore_optimization_hints.
    pub ignore_optimization_hints: bool,
    /// -print_statistics: report pass timings and sizes.
    pub perf: bool,
    /// Warn when one library is named more than once.
    pub warn_duplicate_libraries: bool,
    /// The size of __PAGEZERO.
    pub pagezero_size: u64,
    /// True when -pagezero_size was given.
    pub explicit_pagezero: bool,
    /// -image_base: the address of the first segment.
    pub image_base: Option<u64>,
    /// -static: no dyld fixups.
    pub static_link: bool,
    /// Emit a position-independent executable.
    pub pie: bool,
    /// -v: print the version banner.
    pub version_shown: bool,
}

/// The switches when nothing is given.
pub open spec fn default_switches() -> Switches {
    Switches {
        output_type: MH_EXECUTE,
        arch: None,
        platform: PLATFORM_MACOS,
        platform_minos: 0,
        platform_sdk: 0,
        current_version: 0x1_0000,
        compatibility_version: 0x1_0000,
        keep_private_externs: false,
        adhoc_codesign: true,
        dead_strip: false,
        strip_debug: false,
        all_load: false,
        load_objc: false,
        no_exported_symbols: false,
        fixup_chains: None,
        stack_size: 0,
        relocatable: false,
        flat_namespace: false,
        no_standard_dirs: false,
        strip_locals: false,
        deduplicate: true,
        function_starts: true,
        data_in_code_info: true,
        split_seg_info: false,
        init_offsets: false,
        data_const: true,
        no_implicit_dylibs: false,
        objc_relative_method_lists: None,
        objc_category_merging: None,
        uuid: true,
        suppress_warnings: false,
        fatal_warnings: false,
        demangle: false,
        undefined_dynamic_lookup: false,
        undefined_warning: false,
        undefined_is_warning: false,
        dead_strip_dylibs: false,
        bind_at_load: false,
        application_extension: false,
        dynamic: true,
        headerpad: 0x100,
        search_dylibs_first: false,
        mark_dead_strippable_dylib: false,
        export_dynamic: false,
        print_dependencies: false,
        why_load: false,
        trace: false,
        ignore_optimization_hints: false,
        perf: false,
        warn_duplicate_libraries: true,
        pagezero_size: 0x1_0000_0000,
        explicit_pagezero: false,
        image_base: None,
        static_link: false,
        pie: true,
        version_shown: false,
    }
}

/// Parsed command line arguments.
#[derive(Debug)]
pub struct Args {
    /// Switches and numbers.
    pub sw: Switches,
    /// The output file.
    pub output: Vec<u8>,
    /// The entry point's symbol.
    pub entry: Vec<u8>,
    /// -install_name: the LC_ID_DYLIB string.
    pub install_name: Option<Vec<u8>>,
    /// -final_output: the install name when -install_name is absent.
    pub final_output: Option<Vec<u8>>,
    /// -bundle_loader: the executable that loads the bundle.
    pub bundle_loader: Option<Vec<u8>>,
    /// -map: the map file to write.
    pub map: Option<Vec<u8>>,
    /// -dependency_info: the dependency listing to write.
    pub dependency_info: Option<Vec<u8>>,
    /// -sdk_imports: the report of imported APIs to write.
    pub sdk_imports: Option<Vec<u8>>,
    /// -lto_library: the libLTO to load.
    pub lto_library: Option<Vec<u8>>,
    /// -umbrella: the umbrella framework.
    pub umbrella: Option<Vec<u8>>,
    /// -oso_prefix: the prefix to strip from N_OSO paths.
    pub oso_prefix: Option<Vec<u8>>,
    /// -executable_path: what @executable_path stands for.
    pub executable_path: Option<Vec<u8>>,
    /// -object_path_lto: where to keep the LTO object.
    pub object_path_lto: Option<Vec<u8>>,
    /// -client_name: the name to present to subframeworks.
    pub client_name: Option<Vec<u8>>,
    /// -syslibroot: prefixes of the search paths.
    pub syslibroot: Vec<Vec<u8>>,
    /// -L: where to search libraries.
    pub library_paths: Vec<Vec<u8>>,
    /// -F: where to search frameworks.
    pub framework_paths: Vec<Vec<u8>>,
    /// -rpath: LC_RPATH strings.
    pub rpaths: Vec<Vec<u8>>,
    /// -add_ast_path: Swift AST paths.
    pub add_ast_paths: Vec<Vec<u8>>,
    /// -u: symbols to treat as undefined from the start.
    pub forced_undefined: Vec<Vec<u8>>,
    /// -U: symbols that may stay undefined.
    pub allowed_undefined: Vec<Vec<u8>>,
    /// -order_file: files of symbol names in output order.
    pub order_files: Vec<Vec<u8>>,
    /// -allowable_client: clients that may link this subframework.
    pub allowable_clients: Vec<Vec<u8>>,
    /// If set, only symbols that match one of these patterns are exported.
    pub exported_symbols: Option<Vec<Vec<u8>>>,
    /// Patterns of symbols not to export.
    pub unexported_symbols: Vec<Vec<u8>>,
    /// Patterns of imports to publish as exports.
    pub reexported_symbols: Vec<Vec<u8>>,
    /// The names among them, each of which must resolve.
    pub reexported_names: Vec<Vec<u8>>,
    /// -why_live: patterns of symbols to explain.
    pub why_live: Vec<Vec<u8>>,
    /// Patterns of local symbols to drop.
    pub local_strip_list: Vec<Vec<u8>>,
    /// If set, only matching local symbols stay.
    pub local_keep_list: Option<Vec<Vec<u8>>>,
    /// -segment_order: segment names in output order.
    pub segment_order: Vec<Vec<u8>>,
    /// The inputs in command line order.
    pub inputs: Vec<InputArg>,
    /// -sectcreate: (segment, section, path).
    pub sectcreate: Vec<(Vec<u8>, Vec<u8>, Vec<u8>)>,
    /// -add_empty_section: (segment, section).
    pub add_empty_section: Vec<(Vec<u8>, Vec<u8>)>,
    /// -alias: (existing, new).
    pub aliases: Vec<(Vec<u8>, Vec<u8>)>,
    /// -rename_segment: (old, new).
    pub rename_segments: Vec<(Vec<u8>, Vec<u8>)>,
    /// -rename_section: (old segment, old section, new segment, new section).
    pub rename_sections: Vec<(Vec<u8>, Vec<u8>, Vec<u8>, Vec<u8>)>,
    /// -sectalign: (segment, section, p2align).
    pub sectalign: Vec<(Vec<u8>, Vec<u8>, u8)>,
    /// -segaddr: (segment, address).
    pub segaddrs: Vec<(Vec<u8>, u64)>,
    /// -segprot: (segment, max, init).
    pub segprots: Vec<(Vec<u8>, u8, u8)>,
}

/// The arguments, as mathematical values.
#[verifier::ext_equal]
pub struct ArgsView {
    pub sw: Switches,
    pub output: Seq<u8>,
    pub entry: Seq<u8>,
    pub install_name: Option<Seq<u8>>,
    pub final_output: Option<Seq<u8>>,
    pub bundle_loader: Option<Seq<u8>>,
    pub map: Option<Seq<u8>>,
    pub dependency_info: Option<Seq<u8>>,
    pub sdk_imports: Option<Seq<u8>>,
    pub lto_library: Option<Seq<u8>>,
    pub umbrella: Option<Seq<u8>>,
    pub oso_prefix: Option<Seq<u8>>,
    pub executable_path: Option<Seq<u8>>,
    pub object_path_lto: Option<Seq<u8>>,
    pub client_name: Option<Seq<u8>>,
    pub syslibroot: Seq<Seq<u8>>,
    pub library_paths: Seq<Seq<u8>>,
    pub framework_paths: Seq<Seq<u8>>,
    pub rpaths: Seq<Seq<u8>>,
    pub add_ast_paths: Seq<Seq<u8>>,
    pub forced_undefined: Seq<Seq<u8>>,
    pub allowed_undefined: Seq<Seq<u8>>,
    pub order_files: Seq<Seq<u8>>,
    pub allowable_clients: Seq<Seq<u8>>,
    pub exported_symbols: Option<Seq<Seq<u8>>>,
    pub unexported_symbols: Seq<Seq<u8>>,
    pub reexported_symbols: Seq<Seq<u8>>,
    pub reexported_names: Seq<Seq<u8>>,
    pub why_live: Seq<Seq<u8>>,
    pub local_strip_list: Seq<Seq<u8>>,
    pub local_keep_list: Option<Seq<Seq<u8>>>,
    pub segment_order: Seq<Seq<u8>>,
    pub inputs: Seq<InputView>,
    pub sectcreate: Seq<(Seq<u8>, Seq<u8>, Seq<u8>)>,
    pub add_empty_section: Seq<(Seq<u8>, Seq<u8>)>,
    pub aliases: Seq<(Seq<u8>, Seq<u8>)>,
    pub rename_segments: Seq<(Seq<u8>, Seq<u8>)>,
    pub rename_sections: Seq<(Seq<u8>, Seq<u8>, Seq<u8>, Seq<u8>)>,
    pub sectalign: Seq<(Seq<u8>, Seq<u8>, u8)>,
    pub segaddrs: Seq<(Seq<u8>, u64)>,
    pub segprots: Seq<(Seq<u8>, u8, u8)>,
}

impl View for Args {
    type V = ArgsView;

    open spec fn view(&self) -> ArgsView {
        ArgsView {
            sw: self.sw,
            output: self.output@,
            entry: self.entry@,
            install_name: opt_view(self.install_name),
            final_output: opt_view(self.final_output),
            bundle_loader: opt_view(self.bundle_loader),
            map: opt_view(self.map),
            dependency_info: opt_view(self.dependency_info),
            sdk_imports: opt_view(self.sdk_imports),
            lto_library: opt_view(self.lto_library),
            umbrella: opt_view(self.umbrella),
            oso_prefix: opt_view(self.oso_prefix),
            executable_path: opt_view(self.executable_path),
            object_path_lto: opt_view(self.object_path_lto),
            client_name: opt_view(self.client_name),
            syslibroot: bytes::views(self.syslibroot@),
            library_paths: bytes::views(self.library_paths@),
            framework_paths: bytes::views(self.framework_paths@),
            rpaths: bytes::views(self.rpaths@),
            add_ast_paths: bytes::views(self.add_ast_paths@),
            forced_undefined: bytes::views(self.forced_undefined@),
            allowed_undefined: bytes::views(self.allowed_undefined@),
            order_files: bytes::views(self.order_files@),
            allowable_clients: bytes::views(self.allowable_clients@),
            exported_symbols: opt_views(self.exported_symbols),
            unexported_symbols: bytes::views(self.unexported_symbols@),
            reexported_symbols: bytes::views(self.reexported_symbols@),
            reexported_names: bytes::views(self.reexported_names@),
            why_live: bytes::views(self.why_live@),
            local_strip_list: bytes::views(self.local_strip_list@),
            local_keep_list: opt_views(self.local_keep_list),
            segment_order: bytes::views(self.segment_order@),
            inputs: input_views(self.inputs@),
            sectcreate: triple_views(self.sectcreate@),
            add_empty_section: pair_views(self.add_empty_section@),
            aliases: pair_views(self.aliases@),
            rename_segments: pair_views(self.rename_segments@),
            rename_sections: quad_views(self.rename_sections@),
            sectalign: align_views(self.sectalign@),
            segaddrs: addr_views(self.segaddrs@),
            segprots: prot_views(self.segprots@),
        }
    }
}

/// The arguments when nothing is given.
pub open spec fn default_args() -> ArgsView {
    ArgsView {
        sw: default_switches(),
        output: "a.out".spec_bytes(),
        entry: "_main".spec_bytes(),
        install_name: None,
        final_output: None,
        bundle_loader: None,
        map: None,
        dependency_info: None,
        sdk_imports: None,
        lto_library: None,
        umbrella: None,
        oso_prefix: None,
        executable_path: None,
        object_path_lto: None,
        client_name: None,
        syslibroot: Seq::empty(),
        library_paths: Seq::empty(),
        framework_paths: Seq::empty(),
        rpaths: Seq::empty(),
        add_ast_paths: Seq::empty(),
        forced_undefined: Seq::empty(),
        allowed_undefined: Seq::empty(),
        order_files: Seq::empty(),
        allowable_clients: Seq::empty(),
        exported_symbols: None,
        unexported_symbols: Seq::empty(),
        reexported_symbols: Seq::empty(),
        reexported_names: Seq::empty(),
        why_live: Seq::empty(),
        local_strip_list: Seq::empty(),
        local_keep_list: None,
        segment_order: Seq::empty(),
        inputs: Seq::empty(),
        sectcreate: Seq::empty(),
        add_empty_section: Seq::empty(),
        aliases: Seq::empty(),
        rename_segments: Seq::empty(),
        rename_sections: Seq::empty(),
        sectalign: Seq::empty(),
        segaddrs: Seq::empty(),
        segprots: Seq::empty(),
    }
}

impl Default for Args {
    /// The arguments when nothing is given.
    fn default() -> (r: Args)
        ensures
            r@ == default_args(),
    {
        let r = Args {
            sw: Switches {
                output_type: MH_EXECUTE,
                arch: None,
                platform: PLATFORM_MACOS,
                platform_minos: 0,
                platform_sdk: 0,
                current_version: 0x1_0000,
                compatibility_version: 0x1_0000,
                keep_private_externs: false,
                adhoc_codesign: true,
                dead_strip: false,
                strip_debug: false,
                all_load: false,
                load_objc: false,
                no_exported_symbols: false,
                fixup_chains: None,
                stack_size: 0,
                relocatable: false,
                flat_namespace: false,
                no_standard_dirs: false,
                strip_locals: false,
                deduplicate: true,
                function_starts: true,
                data_in_code_info: true,
                split_seg_info: false,
                init_offsets: false,
                data_const: true,
                no_implicit_dylibs: false,
                objc_relative_method_lists: None,
                objc_category_merging: None,
                uuid: true,
                suppress_warnings: false,
                fatal_warnings: false,
                demangle: false,
                undefined_dynamic_lookup: false,
                undefined_warning: false,
                undefined_is_warning: false,
                dead_strip_dylibs: false,
                bind_at_load: false,
                application_extension: false,
                dynamic: true,
                headerpad: 0x100,
                search_dylibs_first: false,
                mark_dead_strippable_dylib: false,
                export_dynamic: false,
                print_dependencies: false,
                why_load: false,
                trace: false,
                ignore_optimization_hints: false,
                perf: false,
                warn_duplicate_libraries: true,
                pagezero_size: 0x1_0000_0000,
                explicit_pagezero: false,
                image_base: None,
                static_link: false,
                pie: true,
                version_shown: false,
            },
            output: bytes::to_vec("a.out".as_bytes()),
            entry: bytes::to_vec("_main".as_bytes()),
            install_name: None,
            final_output: None,
            bundle_loader: None,
            map: None,
            dependency_info: None,
            sdk_imports: None,
            lto_library: None,
            umbrella: None,
            oso_prefix: None,
            executable_path: None,
            object_path_lto: None,
            client_name: None,
            syslibroot: Vec::new(),
            library_paths: Vec::new(),
            framework_paths: Vec::new(),
            rpaths: Vec::new(),
            add_ast_paths: Vec::new(),
            forced_undefined: Vec::new(),
            allowed_undefined: Vec::new(),
            order_files: Vec::new(),
            allowable_clients: Vec::new(),
            exported_symbols: None,
            unexported_symbols: Vec::new(),
            reexported_symbols: Vec::new(),
            reexported_names: Vec::new(),
            why_live: Vec::new(),
            local_strip_list: Vec::new(),
            local_keep_list: None,
            segment_order: Vec::new(),
            inputs: Vec::new(),
            sectcreate: Vec::new(),
            add_empty_section: Vec::new(),
            aliases: Vec::new(),
            rename_segments: Vec::new(),
            rename_sections: Vec::new(),
            sectalign: Vec::new(),
            segaddrs: Vec::new(),
            segprots: Vec::new(),
        };
        assert(r@ =~= default_args());
        r
    }
}

} // verus!
