use knightos::backend::multitasking::{create_task, NewTaskFrame, Scheduler, Task, TaskState};
use knightos::descriptors::idt::{install_handlers, IdtEntry};
use knightos::display::display::{Color, Display, VgaCell};
use knightos::serial::{LogLevel, Serial};
use knightos::user_interface::text_user_interface::{KeyboardNavEvent, NavDirection};

fn task(id: u32, esp: u32, state: TaskState) -> Task {
    Task { id, esp, cr3: 0, state, stack: Vec::new() }
}

#[test]
fn add_task_fills_slots_then_reports_full() {
    let mut s = Scheduler::new();
    for i in 0..4 {
        assert_eq!(s.add_task(task(i, 0x1000 * i, TaskState::READY)), Ok(()));
    }
    assert_eq!(s.add_task(task(9, 0, TaskState::READY)), Err("Scheduler full"));
    assert_eq!(s.current_task_index(), 0);
}

#[test]
fn switch_next_round_robin_saves_esp() {
    let mut s = Scheduler::new();
    s.add_task(task(0, 0xA0, TaskState::READY)).unwrap();
    s.add_task(task(1, 0xB0, TaskState::READY)).unwrap();
    s.add_task(task(2, 0xC0, TaskState::SUSPENDED)).unwrap();
    s.add_task(task(3, 0xD0, TaskState::READY)).unwrap();
    assert_eq!(s.switch_next(0x111), 0xB0);
    assert_eq!(s.current_task_index(), 1);
    assert_eq!(s.switch_next(0x222), 0xD0);
    assert_eq!(s.current_task_index(), 3);
    // wraps around, to the esp saved on the first switch
    assert_eq!(s.switch_next(0x333), 0x111);
    assert_eq!(s.current_task_index(), 0);
    assert_eq!(s.switch_next(0x444), 0x222);
    assert_eq!(s.task_esp(0), Some(0x444));
    assert_eq!(s.task_esp(2), Some(0xC0));
    assert_eq!(Scheduler::new().task_esp(1), None);
}

#[test]
fn next_task_exists_reports_empty_target_slot() {
    let mut s = Scheduler::new();
    assert!(!s.next_task_exists());
    s.add_task(task(0, 0xA0, TaskState::SUSPENDED)).unwrap();
    assert!(s.next_task_exists());
    let mut s = Scheduler::new();
    s.add_task(task(0, 0xA0, TaskState::READY)).unwrap();
    s.add_task(task(1, 0xB0, TaskState::READY)).unwrap();
    assert!(s.next_task_exists());
}

#[test]
fn switch_next_with_only_current_task_returns_its_esp() {
    let mut s = Scheduler::new();
    s.add_task(task(0, 0xA0, TaskState::READY)).unwrap();
    assert_eq!(s.switch_next(0x5555), 0x5555);
    assert_eq!(s.current_task_index(), 0);
}

#[test]
fn switch_next_stays_on_suspended_current_when_nothing_ready() {
    let mut s = Scheduler::new();
    s.add_task(task(0, 0xA0, TaskState::SUSPENDED)).unwrap();
    s.add_task(task(1, 0xB0, TaskState::SUSPENDED)).unwrap();
    assert_eq!(s.switch_next(0x77), 0x77);
    assert_eq!(s.current_task_index(), 0);
}

#[test]
fn create_task_writes_initial_frame_at_stack_top() {
    let stack = vec![0xEEu8; 8192];
    let t = create_task(0xC0DE_F00D, 3, stack, 0x1000, 0x9000);
    assert_eq!(t.id, 3);
    assert_eq!(t.cr3, 0x9000);
    assert_eq!(t.state, TaskState::READY);
    assert_eq!(t.esp, 0x3000 - 44);
    let off = (t.esp - 0x1000) as usize;
    assert_eq!(&t.stack[off..off + 32], &[0u8; 32]);
    assert_eq!(&t.stack[off + 32..off + 44], &[0x0D, 0xF0, 0xDE, 0xC0, 0x08, 0, 0, 0, 0x02, 0x02, 0, 0]);
    assert_eq!(t.stack[off - 1], 0xEE);
    assert_eq!(t.stack.len(), 8192);
}

#[test]
fn create_task_aligns_stack_bottom() {
    let t = create_task(1, 0, vec![0u8; 8192], 0x1004, 0);
    assert_eq!(t.esp, 0x3000 - 44);
    let f = NewTaskFrame::new(7);
    assert_eq!(f.word(8), 7);
    assert_eq!(f.word(9), 0x08);
    assert_eq!(f.word(10), 0x202);
    assert_eq!(f.word(0), 0);
}

#[test]
fn idt_entry_holds_handler_halves() {
    let mut e = IdtEntry::new();
    assert_eq!(e.handler(), 0);
    e.set_handler(0x1234_5678);
    assert_eq!(e.handler(), 0x1234_5678);
    assert_eq!(e.to_bytes(), [0x78, 0x56, 0x08, 0x00, 0x00, 0x8E, 0x34, 0x12]);
}

#[test]
fn install_handlers_sets_kernel_vectors_only() {
    let mut idt = [IdtEntry::new(); 256];
    install_handlers(&mut idt, 0x100, 0x200, 0x300, 0x400);
    assert_eq!(idt[3].handler(), 0x100);
    assert_eq!(idt[8].handler(), 0x200);
    assert_eq!(idt[32].handler(), 0x300);
    assert_eq!(idt[33].handler(), 0x400);
    assert_eq!(idt[4], IdtEntry::new());
}

#[test]
fn display_color_attribute() {
    assert_eq!(Display::get_color(Color::Blue, Color::White), 0x1F);
    assert_eq!(Display::get_color(Color::Black, Color::LightGray), 0x07);
    assert_eq!(Color::Yellow.value(), 14);
}

#[test]
fn display_prints_and_wraps() {
    let mut d = Display::new();
    let cells = d.print_str("hi", 0x07);
    assert_eq!(
        cells,
        vec![
            VgaCell { offset: 0, character: b'h', color: 7 },
            VgaCell { offset: 2, character: b'i', color: 7 }
        ]
    );
    d.set_current_position((80, 24));
    let cell = d.print_chr('z', 0x1F);
    assert_eq!(cell, VgaCell { offset: 0, character: b'z', color: 0x1F });
    d.set_current_position((79, 3));
    let cell = d.print_chr('y', 1);
    assert_eq!(cell.offset, (3 * 80 + 79) * 2);
    let cell = d.print_chr('w', 1);
    assert_eq!(cell.offset, (4 * 80) * 2);
    assert!(d.print_str("", 1).is_empty());
}

#[test]
fn display_printing_in_two_parts_matches_printing_at_once() {
    let mut whole = Display::new();
    whole.set_current_position((78, 24));
    let all = whole.print_str("abcd", 2);
    let mut parts = Display::new();
    parts.set_current_position((78, 24));
    let mut cells = parts.print_str("ab", 2);
    cells.extend(parts.print_str("cd", 2));
    assert_eq!(all, cells);
    assert_eq!(all[2], VgaCell { offset: 0, character: b'c', color: 2 });
    assert_eq!(whole.print_chr('e', 2), parts.print_chr('e', 2));
}

#[test]
fn keyboard_navigation_press_release_and_priority() {
    let mut e = KeyboardNavEvent::default();
    assert_eq!(e.direction(), None);
    e.on_scancode(0x48);
    assert_eq!(e.direction(), Some(NavDirection::Up));
    e.on_scancode(0x4D);
    assert_eq!(e.direction(), Some(NavDirection::Right));
    e.on_scancode(0x4B);
    assert_eq!(e.direction(), Some(NavDirection::Left));
    e.on_scancode(0xCB);
    e.on_scancode(0xCD);
    e.on_scancode(0xC8);
    assert_eq!(e.direction(), None);
    e.on_scancode(0x50);
    e.on_scancode(0x1E);
    assert_eq!(e.direction(), Some(NavDirection::Down));
    e.on_scancode(0xD0);
    assert_eq!(e, KeyboardNavEvent::default());
}

#[test]
fn log_labels_and_serial_port() {
    assert_eq!(LogLevel::Info.label(), "INFO");
    assert_eq!(LogLevel::Warn.label(), "WARN");
    assert_eq!(LogLevel::Error.label(), "ERROR");
    assert_eq!(Serial::new(0x3F8).port(), 0x3F8);
}

#[test]
fn every_ready_task_runs_within_four_switches() {
    let mut s = Scheduler::new();
    s.add_task(task(0, 0xA0, TaskState::SUSPENDED)).unwrap();
    s.add_task(task(1, 0xB0, TaskState::READY)).unwrap();
    s.add_task(task(2, 0xC0, TaskState::SUSPENDED)).unwrap();
    s.add_task(task(3, 0xD0, TaskState::READY)).unwrap();
    let mut seen = Vec::new();
    for k in 0..4u32 {
        s.switch_next(k);
        seen.push(s.current_task_index());
    }
    assert_eq!(seen, vec![1, 3, 1, 3]);
}

#[test]
fn serial_init_writes_program_the_uart() {
    let w = Serial::new(0x3F8).init_writes();
    assert_eq!(
        w,
        vec![
            (0x3F9, 0x00),
            (0x3FB, 0x80),
            (0x3F8, 0x03),
            (0x3F9, 0x00),
            (0x3FB, 0x03),
            (0x3FA, 0xC7),
            (0x3FC, 0x0B),
            (0x3FC, 0x1E),
            (0x3F8, 0xAE),
        ]
    );
}

#[test]
fn serial_loopback_decides_setup() {
    let s = Serial::new(0x3F8);
    assert_eq!(s.loopback_result(0xAE), Ok((0x3FC, 0x0F)));
    assert_eq!(s.loopback_result(0x00), Err("test"));
    assert_eq!(s.loopback_result(0xAF), Err("test"));
}

#[test]
fn ready_tasks_each_run_once_per_round_in_slot_order() {
    let mut s = Scheduler::new();
    s.add_task(task(0, 0xA0, TaskState::READY)).unwrap();
    s.add_task(task(1, 0xB0, TaskState::SUSPENDED)).unwrap();
    s.add_task(task(2, 0xC0, TaskState::READY)).unwrap();
    s.add_task(task(3, 0xD0, TaskState::READY)).unwrap();
    // Slots 0, 2 and 3 are ready: from slot 2, three switches visit each
    // of them once, in slot order after the current one.
    s.switch_next(0);
    assert_eq!(s.current_task_index(), 2);
    let mut seen = Vec::new();
    for k in 0..3u32 {
        s.switch_next(k);
        seen.push(s.current_task_index());
    }
    assert_eq!(seen, vec![3, 0, 2]);
}
