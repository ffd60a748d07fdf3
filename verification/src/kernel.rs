//! The kernel's description of the machine it runs on, and its banner.
use vstd::prelude::*;
use crate::cpu::CpuInfo;
use crate::vga::{Screen, Writer, put_str_spec};
use crate::vga_text;
use vstd::string::StringSliceAdditionalSpecFns;

verus! {

pub struct Kernel {
    pub cpu: CpuInfo,
    pub ram_mb: u64,
}

/// The screen after writing the strings in order.
pub open spec fn put_lines(s: Screen, lines: Seq<Seq<char>>) -> Screen
    decreases lines.len(),
{
    if lines.len() == 0 {
        s
    } else {
        put_lines(put_str_spec(s, lines[0]), lines.drop_first())
    }
}

/// The lines of the start-up banner.
pub open spec fn banner_lines() -> Seq<Seq<char>> {
    seq![
        "   _____ _                                   _        \n"@,
        "  / ____| |                                 | |       \n"@,
        " | |    | |__   ___  ___  ___  ___  ___ __ _| | _____ \n"@,
        " | |    | '_ \\ / _ \\/ _ \\/ __|/ _ \\/ __/ _` | |/ / _ \\\n"@,
        " | |____| | | |  __/  __/\\__ \\  __/ (_| (_| |   <  __/\n"@,
        "  \\_____|_| |_|\\___|\\___||___/\\___|\\___\\__,_|_|\\_\\___|\n"@,
        "                                                      \n"@,
        "                 Cheesecake Kernel\n\n"@,
    ]
}

/// The text console after writing the strings in order.
pub open spec fn put_text_lines(s: vga_text::TextScreen, lines: Seq<Seq<u8>>) -> vga_text::TextScreen
    decreases lines.len(),
{
    if lines.len() == 0 {
        s
    } else {
        put_text_lines(vga_text::put_str_spec(s, lines[0]), lines.drop_first())
    }
}

/// The bytes of the lines of the text-mode start-up banner.
pub open spec fn text_banner_lines() -> Seq<Seq<u8>> {
    seq![
        " _____ _                                 _\n".spec_bytes(),
        "|  __ \\ |                               | |\n".spec_bytes(),
        "| /  \\/ |__   ___  ___  ___  ___  __ _| | _____ \n".spec_bytes(),
        "| |   | '_ \\ / _ \\/ _ \\/ __|/ _ \\/ _` | |/ / _ \\\n".spec_bytes(),
        "| \\__/\\ | | |  __/  __/\\__ \\  __/ (_| |   <  __/\n".spec_bytes(),
        " \\____/_| |_|\\___|\\___|\\___/\\___|\\__,_|_|\\_\\___|\n\n".spec_bytes(),
    ]
}

impl Kernel {
    /// Writes the start-up banner to the text-mode console.
    pub fn print_text_banner(&self, w: &mut vga_text::Writer)
        requires
            old(w).wf(),
        ensures
            final(w).wf(),
            final(w)@ == put_text_lines(old(w)@, text_banner_lines()),
    {
        let ghost l = text_banner_lines();
        w.write_str(" _____ _                                 _\n");
        w.write_str("|  __ \\ |                               | |\n");
        w.write_str("| /  \\/ |__   ___  ___  ___  ___  __ _| | _____ \n");
        w.write_str("| |   | '_ \\ / _ \\/ _ \\/ __|/ _ \\/ _` | |/ / _ \\\n");
        w.write_str("| \\__/\\ | | |  __/  __/\\__ \\  __/ (_| |   <  __/\n");
        w.write_str(" \\____/_| |_|\\___|\\___|\\___/\\___|\\__,_|_|\\_\\___|\n\n");
        proof {
            reveal_with_fuel(put_text_lines, 7);
            assert(l.drop_first().drop_first().drop_first().drop_first().drop_first().drop_first() =~= Seq::<Seq<u8>>::empty());
        }
    }

    /// Writes the start-up banner to the console.
    pub fn print_banner(&self, w: &mut Writer)
        requires
            old(w).wf(),
        ensures
            final(w).wf(),
            final(w)@ == put_lines(old(w)@, banner_lines()),
    {
        let ghost s0 = w@;
        let ghost l = banner_lines();
        w.write_str("   _____ _                                   _        \n");
        w.write_str("  / ____| |                                 | |       \n");
        w.write_str(" | |    | |__   ___  ___  ___  ___  ___ __ _| | _____ \n");
        w.write_str(" | |    | '_ \\ / _ \\/ _ \\/ __|/ _ \\/ __/ _` | |/ / _ \\\n");
        w.write_str(" | |____| | | |  __/  __/\\__ \\  __/ (_| (_| |   <  __/\n");
        w.write_str("  \\_____|_| |_|\\___|\\___||___/\\___|\\___\\__,_|_|\\_\\___|\n");
        w.write_str("                                                      \n");
        w.write_str("                 Cheesecake Kernel\n\n");
        proof {
            reveal_with_fuel(put_lines, 9);
            assert(l.drop_first().drop_first().drop_first().drop_first().drop_first().drop_first().drop_first().drop_first() =~= Seq::<Seq<char>>::empty());
        }
    }
}

} // verus!
