//! Bringing the kernel up: the kernel's map, the writable files, the display
//! and the first program.

use vstd::prelude::*;
use crate::display::{cmdline_from, display_mode, parse_cmdline, DisplayConfig, DisplayMode};
use crate::elf::{goblin_parse, load_left, load_outcome, load_user_elf, ElfLoadError, Loaded};
use crate::fs::{find, initialised, lemma_find};
use crate::mem::Space;
use crate::sv39::{kernel_map, kernel_map_left, satp_for};
use crate::trap::{default_env, shell_args, Kernel, KernelView, USER_STACK_BYTES, USER_STACK_TOP};

verus! {

/// Why the kernel did not come up.
#[derive(Clone, Copy, Debug, PartialEq, Eq, Structural)]
pub enum BootError {
    /// The pool is too small for the kernel's map.
    PageTables,
    /// No file is called `shell.elf`.
    ShellMissing,
    /// The shell could not be loaded.
    Load(ElfLoadError),
}

/// What the first entry into user mode needs.
#[derive(Clone, Copy, Debug, PartialEq, Eq, Structural)]
pub struct BootInfo {
    /// The value for the translation register.
    pub satp: u64,
    /// The display that the boot arguments select.
    pub display: DisplayMode,
    /// The loaded shell.
    pub image: Loaded,
}

/// What booting comes to. The kernel's map is built first; without room for
/// it the tables keep what of it was built and nothing else happens. Then every embedded file is copied into the
/// writable layer, the boot arguments select the display, and the file
/// `shell.elf` is loaded with the argument `shell` and the default
/// environment; its break becomes the program's break. Where the shell
/// cannot be loaded the space holds what of it was loaded up to the failure.
pub open spec fn boot_post(k0: KernelView, cmdline: Seq<char>, k1: KernelView, r: Result<BootInfo, BootError>) -> bool {
    match kernel_map(k0.space.pt) {
        None => r == Err::<BootInfo, BootError>(BootError::PageTables) && k1 == (KernelView {
            space: Space { pt: kernel_map_left(k0.space.pt), fr: k0.space.fr },
            ..k0
        }),
        Some(pt) => {
            &&& initialised(k0.files, k0.ro, k1.files)
            &&& k1 == (KernelView { space: k1.space, files: k1.files, brk: k1.brk, ..k0 })
            &&& match find(k1.files, "shell.elf"@) {
                None => r == Err::<BootInfo, BootError>(BootError::ShellMissing) && k1.space == (Space {
                    pt,
                    fr: k0.space.fr,
                }) && k1.brk == k0.brk,
                Some(i) => match load_outcome(
                    goblin_parse(k1.files[i].data@),
                    k1.files[i].data@,
                    Space { pt, fr: k0.space.fr },
                    USER_STACK_TOP as int,
                    USER_STACK_BYTES as int,
                    shell_args(),
                    default_env(),
                ) {
                    Ok((s, l)) => k1.space == s && k1.brk == l.brk && r == Ok::<BootInfo, BootError>(
                        BootInfo {
                            satp: satp_for(pt.root as usize),
                            display: cmdline_from(DisplayMode::Ansi, cmdline, 0),
                            image: l,
                        },
                    ),
                    Err(e) => r == Err::<BootInfo, BootError>(BootError::Load(e)) && k1.brk == k0.brk && k1.space
                        == load_left(
                        goblin_parse(k1.files[i].data@),
                        k1.files[i].data@,
                        Space { pt, fr: k0.space.fr },
                        USER_STACK_TOP as int,
                        USER_STACK_BYTES as int,
                        shell_args(),
                        default_env(),
                    ),
                },
            }
        },
    }
}

/// Boots: builds the kernel's map, fills the writable layer, reads the boot
/// arguments and loads the shell.
pub fn rust_start(k: &mut Kernel, cmdline: &str) -> (r: Result<BootInfo, BootError>)
    requires
        old(k).wf(),
    ensures
        final(k).wf(),
        boot_post(old(k)@, cmdline@, final(k)@, r),
{
    let satp = match k.space.pt.enable_sv39() {
        Ok(v) => v,
        Err(_) => {
            return Err(BootError::PageTables);
        },
    };
    crate::fs::init_writable_fs(&mut k.fs);
    let mut cfg = DisplayConfig::new();
    parse_cmdline(&mut cfg, cmdline);
    proof {
        lemma_find(k.fs.files@, "shell.elf"@);
    }
    let image = match crate::fs::get_file_data(&k.fs, "shell.elf") {
        Some(d) => d,
        None => {
            return Err(BootError::ShellMissing);
        },
    };
    let argv: [&str; 1] = ["shell"];
    let envp: [&str; 1] = ["PATH=/"];
    proof {
        assert(crate::elf::bytes_of(argv@) =~= shell_args());
        assert(crate::elf::bytes_of(envp@) =~= default_env());
    }
    match load_user_elf(
        &mut k.space,
        image.as_slice(),
        USER_STACK_TOP,
        USER_STACK_BYTES,
        vstd::array::array_as_slice(&argv),
        vstd::array::array_as_slice(&envp),
    ) {
        Ok(img) => {
            k.brk = img.brk;
            Ok(BootInfo { satp, display: display_mode(&cfg), image: img })
        },
        Err(e) => Err(BootError::Load(e)),
    }
}

/// A boot that succeeds hands back the shell, ready to be entered: the
/// break is the shell's, the image holds the shell's entry and the argument
/// count 1, and, where the layout stayed inside the stack's pages, the
/// program reads at the argument vector one address and the closing null
/// word, at that address `shell` with its closing zero byte, and in the
/// same way `PATH=/` through the environment vector.
pub proof fn lemma_boot_loads_shell(k0: KernelView, cmdline: Seq<char>, k1: KernelView, r: Result<BootInfo, BootError>)
    requires
        boot_post(k0, cmdline, k1, r),
        r is Ok,
        kernel_map(k0.space.pt) is Some,
        (Space { pt: kernel_map(k0.space.pt).unwrap(), fr: k0.space.fr }).wf(),
        crate::elf::stack_base(USER_STACK_TOP as int, USER_STACK_BYTES as int) <= r.unwrap().image.user_sp,
    ensures
        ({
            let img = r.unwrap().image;
            &&& find(k1.files, "shell.elf"@) is Some
            &&& goblin_parse(k1.files[find(k1.files, "shell.elf"@).unwrap()].data@) is Some
            &&& img.entry_va == goblin_parse(k1.files[find(k1.files, "shell.elf"@).unwrap()].data@).unwrap().entry
                as usize
            &&& k1.brk == img.brk
            &&& img.argc == 1
            &&& r.unwrap().satp == satp_for(kernel_map(k0.space.pt).unwrap().root as usize)
            &&& exists|p: usize|
                crate::mem::user_load_all(k1.space.pt, k1.space.fr, img.argv_va as int, 16) == Some(
                    crate::elf::words_le(seq![p, 0usize]),
                ) && #[trigger] crate::mem::user_load_all(
                    k1.space.pt,
                    k1.space.fr,
                    p as int,
                    shell_args()[0].len() + 1,
                ) == Some(shell_args()[0] + seq![0u8])
            &&& exists|p: usize|
                crate::mem::user_load_all(k1.space.pt, k1.space.fr, img.envp_va as int, 16) == Some(
                    crate::elf::words_le(seq![p, 0usize]),
                ) && #[trigger] crate::mem::user_load_all(
                    k1.space.pt,
                    k1.space.fr,
                    p as int,
                    default_env()[0].len() + 1,
                ) == Some(default_env()[0] + seq![0u8])
        }),
{
    let pt = kernel_map(k0.space.pt).unwrap();
    let sp = Space { pt, fr: k0.space.fr };
    let image = k1.files[find(k1.files, "shell.elf"@).unwrap()].data@;
    let e = goblin_parse(image).unwrap();
    let top = USER_STACK_TOP as int;
    let bytes = USER_STACK_BYTES as int;
    let s1 = crate::elf::load_segments_from(sp, e.segments, image, 0, 0).unwrap().0;
    crate::elf::lemma_segments_sound(sp, e.segments, image, 0, 0);
    crate::elf::lemma_stack_contents(s1, top, bytes, shell_args(), default_env());
    let sm = crate::elf::map_stack_from(
        s1,
        crate::elf::stack_base(top, bytes),
        crate::elf::stack_pages(bytes),
        0,
    ).unwrap();
    let strings = crate::elf::stack_strings(sm.pt, sm.fr, top, shell_args(), default_env()).unwrap();
    let eptrs = strings.2;
    let aptrs = strings.3;
    assert(aptrs.push(0) =~= seq![aptrs[0], 0usize]);
    assert(eptrs.push(0) =~= seq![eptrs[0], 0usize]);
    assert(shell_args().len() == 1);
    assert(default_env().len() == 1);
    let p = aptrs[0];
    assert(crate::mem::user_load_all(k1.space.pt, k1.space.fr, p as int, shell_args()[0].len() + 1) == Some(
        shell_args()[0] + seq![0u8],
    ));
    let q = eptrs[0];
    assert(crate::mem::user_load_all(k1.space.pt, k1.space.fr, q as int, default_env()[0].len() + 1) == Some(
        default_env()[0] + seq![0u8],
    ));
}

} // verus!
