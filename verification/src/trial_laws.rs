//! What the trial patches leave in a ROM.
use vstd::prelude::*;
use crate::patching::{
    law_written_is_there, law_written_stays, lemma_after, lemma_after_itself, Progress,
};
use crate::poc::{fresh, trial_chain};
use crate::rom::{call_hooked, renderer_hooked};
use crate::rom_laws::{law_expanded, law_expected_bytes};
use crate::tracked_rom::{lemma_written_wf, ExpectView};

verus! {

proof fn lemma_still_sound(
    p: Progress,
    label: Seq<char>,
    offset: int,
    bytes: Seq<u8>,
    expect: ExpectView,
)
    requires
        p.rom.wf(),
        0 <= offset,
    ensures
        p.expect(label, offset, bytes, expect).rom.wf(),
        p.expect(label, offset, bytes, expect).fault is None ==> p.fault is None,
        p.expect(label, offset, bytes, expect).rom.data.len() == p.rom.data.len(),
{
    if p.fault is None && p.rom.expect_refusal(
        label,
        offset,
        bytes.len() as int,
        expect,
    ) is None {
        lemma_written_wf(p.rom, label, offset, bytes);
    }
}

/// The handler goes to `0x1B726`, where all was `0xFF`. With the call hooked, the call of
/// the renderer at `0x199F1` becomes the branch; it has to be a call of `0x9A3E` before.
pub proof fn law_hooked_call(p: Progress, handler: Seq<u8>, call: Seq<u8>)
    requires
        p.rom.wf(),
        call_hooked(p, handler, call).fault is None,
    ensures
        ({
            let data = call_hooked(p, handler, call).rom.data;
            &&& data.len() == p.rom.data.len()
            &&& 0x1B726 + handler.len() <= data.len()
            &&& data.subrange(0x1B726, 0x1B726 + handler.len() as int) == handler
            &&& call.len() == 3
            &&& data.subrange(0x199F1, 0x199F4) == call
            &&& forall|i: int|
                0x1B726 <= i < 0x1B726 + handler.len() ==> #[trigger] p.rom.data[i] == 0xFF
        }),
        p.fault is None,
{
    let q = p.free("poc ko handler"@, 0x1B726, handler);
    let known = seq![0xCDu8, 0x3Eu8, 0x9Au8];
    let r = q.checked("poc hook call-site"@, 0x199F1, known, call);
    assert(r == call_hooked(p, handler, call));
    lemma_still_sound(p, "poc ko handler"@, 0x1B726, handler, ExpectView::FreeSpace(0xFF));
    lemma_still_sound(q, "poc hook call-site"@, 0x199F1, call, ExpectView::Bytes(known));
    law_written_stays(q, "poc hook call-site"@, 0x199F1, call, ExpectView::Bytes(known));
    law_written_is_there(
        p,
        "poc ko handler"@,
        0x1B726,
        handler,
        ExpectView::FreeSpace(0xFF),
        r,
    );
    lemma_after_itself(r);
    law_written_is_there(q, "poc hook call-site"@, 0x199F1, call, ExpectView::Bytes(known), r);
    law_expected_bytes(p.rom, "poc ko handler"@, 0x1B726, handler.len() as int, 0xFF, known);
    law_expected_bytes(q.rom, "poc hook call-site"@, 0x199F1, call.len() as int, 0xFF, known);
}

/// With the renderer hooked, the branch replaces its first three bytes at `0x19A3E`, which
/// have to be `dec a`, `push de` and `ex de, hl`, and the handler goes to `0x1B726`.
pub proof fn law_hooked_renderer(p: Progress, handler: Seq<u8>, jump: Seq<u8>)
    requires
        p.rom.wf(),
        renderer_hooked(p, handler, jump).fault is None,
    ensures
        ({
            let data = renderer_hooked(p, handler, jump).rom.data;
            &&& data.len() == p.rom.data.len()
            &&& 0x1B726 + handler.len() <= data.len()
            &&& data.subrange(0x1B726, 0x1B726 + handler.len() as int) == handler
            &&& jump.len() == 3
            &&& data.subrange(0x19A3E, 0x19A41) == jump
            &&& forall|i: int|
                0x1B726 <= i < 0x1B726 + handler.len() ==> #[trigger] p.rom.data[i] == 0xFF
        }),
        p.fault is None,
{
    let q = p.free("ko glyph hook handler"@, 0x1B726, handler);
    let known = crate::glyph::GLYPH_RENDER_HOOK_ORIG@;
    let r = q.checked("ko glyph render hook"@, 0x19A3E, known, jump);
    assert(r == renderer_hooked(p, handler, jump));
    lemma_still_sound(p, "ko glyph hook handler"@, 0x1B726, handler, ExpectView::FreeSpace(0xFF));
    lemma_still_sound(q, "ko glyph render hook"@, 0x19A3E, jump, ExpectView::Bytes(known));
    law_written_stays(q, "ko glyph render hook"@, 0x19A3E, jump, ExpectView::Bytes(known));
    law_written_is_there(
        p,
        "ko glyph hook handler"@,
        0x1B726,
        handler,
        ExpectView::FreeSpace(0xFF),
        r,
    );
    lemma_after_itself(r);
    law_written_is_there(q, "ko glyph render hook"@, 0x19A3E, jump, ExpectView::Bytes(known), r);
    law_expected_bytes(p.rom, "ko glyph hook handler"@, 0x1B726, handler.len() as int, 0xFF, known);
    law_expected_bytes(q.rom, "ko glyph render hook"@, 0x19A3E, jump.len() as int, 0xFF, known);
}

/// A trial patch that succeeds makes the ROM one megabyte long at least and leaves the bank
/// of glyphs at `0x80000`, the handler at `0x1B726`, the branch to it, and the new text where
/// the known one stood.
pub proof fn law_trial(
    data: Seq<u8>,
    fixed: bool,
    bank_label: Seq<char>,
    bank: Seq<u8>,
    handler: Seq<u8>,
    branch: Seq<u8>,
    edit_label: Seq<char>,
    edit_at: int,
    known: Seq<u8>,
    edit: Seq<u8>,
)
    requires
        0 <= edit_at,
        trial_chain(
            data,
            fixed,
            bank_label,
            bank,
            handler,
            branch,
            edit_label,
            edit_at,
            known,
            edit,
        ).fault is None,
    ensures
        ({
            let rom = trial_chain(
                data,
                fixed,
                bank_label,
                bank,
                handler,
                branch,
                edit_label,
                edit_at,
                known,
                edit,
            ).rom.data;
            &&& rom.len() >= 1024 * 1024
            &&& rom.subrange(0x80000, 0x80000 + bank.len() as int) == bank
            &&& rom.subrange(0x1B726, 0x1B726 + handler.len() as int) == handler
            &&& branch.len() == 3
            &&& !fixed ==> rom.subrange(0x199F1, 0x199F4) == branch
            &&& fixed ==> rom.subrange(0x19A3E, 0x19A41) == branch
            &&& rom.subrange(edit_at, edit_at + edit.len()) == edit
            &&& known.len() == edit.len()
        }),
{
    let start = fresh(data);
    let free = ExpectView::FreeSpace(0xFF);
    let p = start.free(bank_label, 0x80000, bank);
    let q = if fixed {
        renderer_hooked(p, handler, branch)
    } else {
        call_hooked(p, handler, branch)
    };
    let expect = ExpectView::Bytes(known);
    let r = q.checked(edit_label, edit_at, known, edit);
    law_expanded(data);
    lemma_still_sound(start, bank_label, 0x80000, bank, free);
    let hook_label = if fixed {
        "ko glyph hook handler"@
    } else {
        "poc ko handler"@
    };
    let branch_label = if fixed {
        "ko glyph render hook"@
    } else {
        "poc hook call-site"@
    };
    let branch_at: int = if fixed {
        0x19A3E
    } else {
        0x199F1
    };
    let before = if fixed {
        crate::glyph::GLYPH_RENDER_HOOK_ORIG@
    } else {
        seq![0xCDu8, 0x3Eu8, 0x9Au8]
    };
    let h = p.free(hook_label, 0x1B726, handler);
    let was = ExpectView::Bytes(before);
    assert(q == h.checked(branch_label, branch_at, before, branch));
    lemma_still_sound(p, hook_label, 0x1B726, handler, free);
    lemma_still_sound(h, branch_label, branch_at, branch, was);
    lemma_still_sound(q, edit_label, edit_at, edit, expect);
    law_written_stays(p, hook_label, 0x1B726, handler, free);
    law_written_stays(h, branch_label, branch_at, branch, was);
    law_written_stays(q, edit_label, edit_at, edit, expect);
    lemma_after(h, q, r);
    lemma_after(p, h, r);
    lemma_after_itself(r);
    law_written_is_there(start, bank_label, 0x80000, bank, free, r);
    law_written_is_there(p, hook_label, 0x1B726, handler, free, r);
    law_written_is_there(h, branch_label, branch_at, branch, was, r);
    law_written_is_there(q, edit_label, edit_at, edit, expect, r);
    law_expected_bytes(h.rom, branch_label, branch_at, branch.len() as int, 0xFF, before);
    law_expected_bytes(q.rom, edit_label, edit_at, edit.len() as int, 0xFF, known);
}

} // verus!
