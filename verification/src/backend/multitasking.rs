//! Cooperative round-robin multitasking: task records, their initial stack
//! frames and the scheduler that picks the next task on each timer tick.

use vstd::prelude::*;

verus! {

/// Whether a task may be scheduled.
#[allow(non_camel_case_types)]
#[derive(Clone, Copy, Debug, PartialEq, Eq, Structural)]
pub enum TaskState {
    READY,
    SUSPENDED,
}

/// A task: its saved stack pointer, address space and stack memory.
pub struct Task {
    pub id: u32,
    pub esp: u32,
    pub cr3: u32,
    pub state: TaskState,
    pub stack: Vec<u8>,
}

/// Bytes of stack given to each task.
pub const STACK_SIZE: usize = 8192;

/// Number of task slots of the scheduler.
pub const TASK_SLOTS: usize = 4;

/// The frame that `popa; iretd` consumes when a task first runs, in memory
/// order from the lowest address: the eight general registers, then the
/// instruction pointer, code segment and flags.
pub struct NewTaskFrame {
    pub edi: u32,
    pub esi: u32,
    pub ebp: u32,
    pub esp: u32,
    pub ebx: u32,
    pub edx: u32,
    pub ecx: u32,
    pub eax: u32,
    pub eip: u32,
    pub cs: u32,
    pub eflags: u32,
}

/// Number of 32-bit words of a `NewTaskFrame`.
pub const FRAME_WORDS: usize = 11;

/// Word `k` of the frame, in memory order.
pub open spec fn frame_word(f: NewTaskFrame, k: int) -> u32 {
    if k == 0 {
        f.edi
    } else if k == 1 {
        f.esi
    } else if k == 2 {
        f.ebp
    } else if k == 3 {
        f.esp
    } else if k == 4 {
        f.ebx
    } else if k == 5 {
        f.edx
    } else if k == 6 {
        f.ecx
    } else if k == 7 {
        f.eax
    } else if k == 8 {
        f.eip
    } else if k == 9 {
        f.cs
    } else {
        f.eflags
    }
}

/// The frame of a task that starts at `entry_point` with cleared
/// registers, in the kernel code segment and with interrupts enabled.
pub open spec fn initial_frame(entry_point: u32) -> NewTaskFrame {
    NewTaskFrame {
        edi: 0,
        esi: 0,
        ebp: 0,
        esp: 0,
        ebx: 0,
        edx: 0,
        ecx: 0,
        eax: 0,
        eip: entry_point,
        cs: 0x08,
        eflags: 0x202,
    }
}

impl NewTaskFrame {
    /// The initial frame of a task that starts at `entry_point`.
    pub fn new(entry_point: u32) -> (f: Self)
        ensures
            f == initial_frame(entry_point),
    {
        NewTaskFrame {
            edi: 0,
            esi: 0,
            ebp: 0,
            esp: 0,
            ebx: 0,
            edx: 0,
            ecx: 0,
            eax: 0,
            eip: entry_point,
            cs: 0x08,
            eflags: 0x202,
        }
    }

    /// Word `k` of the frame, in memory order.
    pub fn word(&self, k: usize) -> (w: u32)
        requires
            k < FRAME_WORDS,
        ensures
            w == frame_word(*self, k as int),
    {
        match k {
            0 => self.edi,
            1 => self.esi,
            2 => self.ebp,
            3 => self.esp,
            4 => self.ebx,
            5 => self.edx,
            6 => self.ecx,
            7 => self.eax,
            8 => self.eip,
            9 => self.cs,
            _ => self.eflags,
        }
    }
}

/// Byte `i` (0 = least significant) of `w`.
pub open spec fn le_byte(w: u32, i: int) -> u8 {
    ((w >> (8 * i) as u32) & 0xFFu32) as u8
}

/// `bytes` with the words of `f` stored little-endian from offset `o`.
pub open spec fn store_frame(bytes: Seq<u8>, o: int, f: NewTaskFrame) -> Seq<u8> {
    Seq::new(
        bytes.len(),
        |i: int|
            if o <= i < o + 4 * FRAME_WORDS {
                le_byte(frame_word(f, (i - o) / 4), (i - o) % 4)
            } else {
                bytes[i]
            },
    )
}

/// The highest 16-byte aligned address at or below the end of a stack that
/// starts at `stack_addr`.
pub open spec fn stack_bottom(stack_addr: u32) -> u32 {
    ((stack_addr + STACK_SIZE) as u32) & !0xFu32
}

/// The saved stack pointer of a new task: its initial frame sits just
/// below the aligned bottom of its stack.
pub open spec fn initial_esp(stack_addr: u32) -> u32 {
    (stack_bottom(stack_addr) - 4 * FRAME_WORDS) as u32
}

proof fn lemma_align_down(x: u32)
    by (bit_vector)
    ensures
        x & !0xFu32 <= x,
        x - (x & !0xFu32) < 16,
{
}

/// A ready task `id` that starts at `entry_point` in address space `cr3`,
/// on `stack`, which lies at address `stack_addr`: the task's initial frame
/// is written at the top of the stack and the saved stack pointer points at
/// it.
pub fn create_task(entry_point: u32, id: usize, stack: Vec<u8>, stack_addr: u32, cr3: u32) -> (t: Task)
    requires
        stack@.len() == STACK_SIZE,
        stack_addr + STACK_SIZE <= u32::MAX,
    ensures
        t.id == id as u32,
        t.esp == initial_esp(stack_addr),
        t.cr3 == cr3,
        t.state == TaskState::READY,
        t.stack@ == store_frame(stack@, initial_esp(stack_addr) - stack_addr, initial_frame(entry_point)),
{
    let mut stack = stack;
    let stack_end: u32 = stack_addr + STACK_SIZE as u32;
    let bottom: u32 = stack_end & !0xF;
    proof {
        lemma_align_down(stack_end);
    }
    let esp: u32 = bottom - 4 * FRAME_WORDS as u32;
    let offset: usize = (esp - stack_addr) as usize;
    let frame = NewTaskFrame::new(entry_point);
    let ghost original = stack@;
    let mut k: usize = 0;
    while k < 4 * FRAME_WORDS
        invariant
            offset + 4 * FRAME_WORDS <= STACK_SIZE,
            stack@.len() == STACK_SIZE,
            original.len() == STACK_SIZE,
            k <= 4 * FRAME_WORDS,
            forall|i: int|
                0 <= i < STACK_SIZE ==> #[trigger] stack@[i] == if offset <= i < offset + k {
                    le_byte(frame_word(frame, (i - offset) / 4), (i - offset) % 4)
                } else {
                    original[i]
                },
        decreases 4 * FRAME_WORDS - k,
    {
        let w = frame.word(k / 4);
        let shift: u32 = 8 * (k % 4) as u32;
        stack[offset + k] = ((w >> shift) & 0xFF) as u8;
        k += 1;
    }
    assert(stack@ =~= store_frame(original, esp - stack_addr, frame));
    Task { id: id as u32, esp, cr3, state: TaskState::READY, stack }
}

/// `t` is present and ready to run.
pub open spec fn is_ready(t: Option<Task>) -> bool {
    t matches Some(task) && task.state == TaskState::READY
}

/// The first slot, looking at offsets `k, k + 1, ..., TASK_SLOTS` after
/// `cur` (wrapping around), that holds a ready task; `cur` when none does.
pub open spec fn scan_ready(tasks: Seq<Option<Task>>, cur: int, k: int) -> int
    decreases TASK_SLOTS + 1 - k,
{
    if k > TASK_SLOTS || k < 1 {
        cur
    } else if is_ready(tasks[(cur + k) % (TASK_SLOTS as int)]) {
        (cur + k) % (TASK_SLOTS as int)
    } else {
        scan_ready(tasks, cur, k + 1)
    }
}

proof fn lemma_save_esp_keeps_schedule(tasks: Seq<Option<Task>>, cur: int, esp: u32, k: int)
    requires
        0 <= cur < tasks.len(),
        tasks.len() == TASK_SLOTS,
    ensures
        scan_ready(save_esp(tasks, cur, esp), cur, k) == scan_ready(tasks, cur, k),
        forall|i: int| 0 <= i < tasks.len() ==> (#[trigger] save_esp(tasks, cur, esp)[i] is Some) == (tasks[i] is Some),
    decreases TASK_SLOTS + 1 - k,
{
    let saved = save_esp(tasks, cur, esp);
    assert forall|i: int| 0 <= i < tasks.len() implies is_ready(#[trigger] saved[i]) == is_ready(tasks[i]) by {}
    if 1 <= k <= TASK_SLOTS {
        lemma_save_esp_keeps_schedule(tasks, cur, esp, k + 1);
        assert(is_ready(saved[(cur + k) % (TASK_SLOTS as int)]) == is_ready(tasks[(cur + k) % (TASK_SLOTS as int)]));
    }
}

proof fn lemma_scan_ready_in_range(tasks: Seq<Option<Task>>, cur: int, k: int)
    requires
        0 <= cur < TASK_SLOTS,
    ensures
        0 <= scan_ready(tasks, cur, k) < TASK_SLOTS,
    decreases TASK_SLOTS + 1 - k,
{
    if 1 <= k <= TASK_SLOTS && !is_ready(tasks[(cur + k) % (TASK_SLOTS as int)]) {
        lemma_scan_ready_in_range(tasks, cur, k + 1);
    }
}

/// The slot that runs after `cur`: the nearest ready task following it in
/// round-robin order (`cur` itself last), or `cur` when no task is ready.
pub open spec fn next_task_index(tasks: Seq<Option<Task>>, cur: int) -> int {
    scan_ready(tasks, cur, 1)
}

/// `t` with its saved stack pointer replaced by `esp`.
pub open spec fn with_esp(t: Task, esp: u32) -> Task {
    Task { id: t.id, esp, cr3: t.cr3, state: t.state, stack: t.stack }
}

/// The slots after the running task's stack pointer is saved.
pub open spec fn save_esp(tasks: Seq<Option<Task>>, cur: int, esp: u32) -> Seq<Option<Task>> {
    match tasks[cur] {
        Some(t) => tasks.update(cur, Some(with_esp(t, esp))),
        None => tasks,
    }
}

/// `i` is the lowest empty slot of `tasks`.
pub open spec fn is_first_empty(tasks: Seq<Option<Task>>, i: int) -> bool {
    &&& 0 <= i < tasks.len()
    &&& tasks[i] is None
    &&& forall|j: int| 0 <= j < i ==> #[trigger] tasks[j] is Some
}

/// A fixed set of task slots and the slot of the running task.
pub struct Scheduler {
    tasks: Vec<Option<Task>>,
    current_task_index: usize,
}

impl Scheduler {
    /// The scheduler has its fixed number of slots and its running slot is
    /// one of them.
    pub closed spec fn wf(&self) -> bool {
        &&& self.tasks@.len() == TASK_SLOTS
        &&& self.current_task_index < TASK_SLOTS
    }

    /// The task slots.
    pub closed spec fn tasks(&self) -> Seq<Option<Task>> {
        self.tasks@
    }

    /// The slot of the running task.
    pub closed spec fn current(&self) -> int {
        self.current_task_index as int
    }

    /// A well-formed scheduler has its four slots and runs one of them.
    pub proof fn lemma_wf(&self)
        requires
            self.wf(),
        ensures
            self.tasks().len() == TASK_SLOTS,
            0 <= self.current() < TASK_SLOTS,
    {
    }

    /// An empty scheduler whose running slot is slot 0.
    pub fn new() -> (s: Scheduler)
        ensures
            s.tasks() == Seq::new(TASK_SLOTS as nat, |i: int| None::<Task>),
            s.current() == 0,
            s.wf(),
    {
        let mut tasks: Vec<Option<Task>> = Vec::new();
        let mut i: usize = 0;
        while i < TASK_SLOTS
            invariant
                i <= TASK_SLOTS,
                tasks@ == Seq::new(i as nat, |j: int| None::<Task>),
            decreases TASK_SLOTS - i,
        {
            tasks.push(None);
            i += 1;
        }
        Scheduler { tasks, current_task_index: 0 }
    }

    /// The slot of the running task.
    pub fn current_task_index(&self) -> (i: usize)
        requires
            self.wf(),
        ensures
            i == self.current(),
    {
        self.current_task_index
    }

    /// Puts `task` in the lowest empty slot; fails when every slot is taken.
    pub fn add_task(&mut self, task: Task) -> (r: Result<(), &'static str>)
        requires
            old(self).wf(),
        ensures
            final(self).wf(),
            r is Ok <==> exists|i: int| 0 <= i < TASK_SLOTS && old(self).tasks()[i] is None,
            r is Ok ==> exists|i: int|
                is_first_empty(old(self).tasks(), i) && final(self).tasks() == old(
                    self,
                ).tasks().update(i, Some(task)),
            r is Err ==> r == Err::<(), &'static str>("Scheduler full") && final(self).tasks() == old(
                self,
            ).tasks(),
            final(self).current() == old(self).current(),
    {
        let mut i: usize = 0;
        while i < TASK_SLOTS
            invariant
                i <= TASK_SLOTS,
                self.tasks@.len() == TASK_SLOTS,
                self.tasks@ == old(self).tasks(),
                self.current_task_index == old(self).current(),
                self.current_task_index < TASK_SLOTS,
                forall|j: int| 0 <= j < i ==> #[trigger] self.tasks@[j] is Some,
            decreases TASK_SLOTS - i,
        {
            if self.tasks[i].is_none() {
                self.tasks.set(i, Some(task));
                assert(is_first_empty(old(self).tasks(), i as int));
                return Ok(());
            }
            i += 1;
        }
        Err("Scheduler full")
    }

    /// The saved stack pointer of the task in slot `i`, if there is one.
    pub fn task_esp(&self, i: usize) -> (r: Option<u32>)
        requires
            self.wf(),
            i < TASK_SLOTS,
        ensures
            match self.tasks()[i as int] {
                Some(t) => r == Some(t.esp),
                None => r is None,
            },
    {
        match &self.tasks[i] {
            Some(t) => Some(t.esp),
            None => None,
        }
    }

    /// Whether the slot that would run after the next switch holds a task.
    pub fn next_task_exists(&self) -> (b: bool)
        requires
            self.wf(),
        ensures
            b == self.tasks()[next_task_index(self.tasks(), self.current())] is Some,
    {
        let cur = self.current_task_index;
        proof {
            lemma_scan_ready_in_range(self.tasks@, cur as int, 1);
        }
        let mut next = cur;
        let mut offset: usize = 1;
        while offset <= TASK_SLOTS
            invariant_except_break
                1 <= offset <= TASK_SLOTS + 1,
                next == cur,
                next_task_index(self.tasks@, cur as int) == scan_ready(self.tasks@, cur as int, offset as int),
            invariant
                cur < TASK_SLOTS,
                self.tasks@.len() == TASK_SLOTS,
            ensures
                next == next_task_index(self.tasks@, cur as int),
            decreases TASK_SLOTS + 1 - offset,
        {
            let idx = (cur + offset) % TASK_SLOTS;
            if let Some(task) = &self.tasks[idx] {
                if task.state == TaskState::READY {
                    next = idx;
                    break;
                }
            }
            offset += 1;
        }
        self.tasks[next].is_some()
    }

    /// Round-robin switch on a timer tick: saves `current_esp` into the
    /// running task, makes the next ready task the running one and returns
    /// its saved stack pointer.
    pub fn switch_next(&mut self, current_esp: u32) -> (esp: u32)
        requires
            old(self).wf(),
            old(self).tasks()[next_task_index(old(self).tasks(), old(self).current())] is Some,
        ensures
            final(self).wf(),
            ({
                let saved = save_esp(old(self).tasks(), old(self).current(), current_esp);
                let next = next_task_index(saved, old(self).current());
                &&& final(self).tasks() == saved
                &&& final(self).current() == next
                &&& esp == saved[next]->Some_0.esp
            }),
    {
        let current_idx = self.current_task_index;
        let mut slot: Option<Task> = None;
        self.tasks.set_and_swap(current_idx, &mut slot);
        if let Some(mut task) = slot {
            task.esp = current_esp;
            slot = Some(task);
        }
        self.tasks.set_and_swap(current_idx, &mut slot);
        proof {
            lemma_scan_ready_in_range(self.tasks@, current_idx as int, 1);
        }
        let ghost saved = self.tasks@;
        assert(saved == save_esp(old(self).tasks(), old(self).current(), current_esp));
        proof {
            lemma_save_esp_keeps_schedule(old(self).tasks(), current_idx as int, current_esp, 1);
        }
        let mut next_idx = current_idx;
        let mut offset: usize = 1;
        while offset <= TASK_SLOTS
            invariant_except_break
                1 <= offset <= TASK_SLOTS + 1,
                next_idx == current_idx,
                next_task_index(saved, current_idx as int) == scan_ready(saved, current_idx as int, offset as int),
            invariant
                current_idx < TASK_SLOTS,
                self.tasks@ == saved,
                self.tasks@.len() == TASK_SLOTS,
            ensures
                next_idx == next_task_index(saved, current_idx as int),
            decreases TASK_SLOTS + 1 - offset,
        {
            let idx = (current_idx + offset) % TASK_SLOTS;
            if let Some(task) = &self.tasks[idx] {
                if task.state == TaskState::READY {
                    next_idx = idx;
                    break;
                }
            }
            offset += 1;
        }
        self.current_task_index = next_idx;
        self.tasks[next_idx].as_ref().unwrap().esp
    }
}

/// The slot `j` places after `cur` holds a ready task.
pub open spec fn ready_after(tasks: Seq<Option<Task>>, cur: int, j: int) -> bool {
    is_ready(tasks[(cur + j) % (TASK_SLOTS as int)])
}

/// Among the offsets `k..=TASK_SLOTS` after `cur`, `j` is the first that
/// holds a ready task.
pub open spec fn first_ready_after(tasks: Seq<Option<Task>>, cur: int, k: int, j: int) -> bool {
    &&& k <= j <= TASK_SLOTS
    &&& ready_after(tasks, cur, j)
    &&& forall|i: int| k <= i < j ==> !#[trigger] ready_after(tasks, cur, i)
}

proof fn lemma_scan_ready(tasks: Seq<Option<Task>>, cur: int, k: int)
    requires
        0 <= cur < TASK_SLOTS,
        1 <= k <= TASK_SLOTS + 1,
    ensures
        ({
            let n = scan_ready(tasks, cur, k);
            ||| (exists|j: int| #[trigger] first_ready_after(tasks, cur, k, j) && n == (cur + j) % (TASK_SLOTS as int))
            ||| (n == cur && forall|i: int| k <= i <= TASK_SLOTS ==> !#[trigger] ready_after(tasks, cur, i))
        }),
    decreases TASK_SLOTS + 1 - k,
{
    if k <= TASK_SLOTS {
        if ready_after(tasks, cur, k) {
            assert(first_ready_after(tasks, cur, k, k));
        } else {
            lemma_scan_ready(tasks, cur, k + 1);
            let n = scan_ready(tasks, cur, k);
            if exists|j: int| #[trigger] first_ready_after(tasks, cur, k + 1, j) && n == (cur + j) % (TASK_SLOTS as int) {
                let j = choose|j: int| #[trigger] first_ready_after(tasks, cur, k + 1, j) && n == (cur + j) % (TASK_SLOTS as int);
                assert(first_ready_after(tasks, cur, k, j));
            }
        }
    }
}

/// Round-robin order: the task that runs next is the nearest ready task
/// after the running one (the running one itself coming last); when no
/// task is ready the running slot stays.
pub proof fn next_is_nearest_ready(tasks: Seq<Option<Task>>, cur: int)
    requires
        0 <= cur < TASK_SLOTS,
    ensures
        ({
            let n = next_task_index(tasks, cur);
            ||| (exists|j: int| #[trigger] first_ready_after(tasks, cur, 1, j) && n == (cur + j) % (TASK_SLOTS as int))
            ||| (n == cur && forall|i: int| 0 <= i < TASK_SLOTS ==> !is_ready(#[trigger] tasks[i]))
        }),
{
    lemma_scan_ready(tasks, cur, 1);
    let n = next_task_index(tasks, cur);
    if !exists|j: int| #[trigger] first_ready_after(tasks, cur, 1, j) && n == (cur + j) % (TASK_SLOTS as int) {
        assert forall|i: int| 0 <= i < TASK_SLOTS implies !is_ready(#[trigger] tasks[i]) by {
            let j = if i > cur { i - cur } else { i - cur + TASK_SLOTS };
            assert((cur + j) % (TASK_SLOTS as int) == i);
            assert(!ready_after(tasks, cur, j));
        }
    }
}

/// A task's initial frame lies inside its stack, and its saved stack
/// pointer is 16-byte aligned once the frame is popped.
pub proof fn initial_frame_in_stack(stack_addr: u32)
    requires
        stack_addr + STACK_SIZE <= u32::MAX,
    ensures
        stack_addr <= initial_esp(stack_addr),
        initial_esp(stack_addr) + 4 * FRAME_WORDS <= stack_addr + STACK_SIZE,
        (initial_esp(stack_addr) + 4 * FRAME_WORDS) % 16 == 0,
{
    let end = (stack_addr + STACK_SIZE) as u32;
    assert(end & !0xFu32 <= end && end - (end & !0xFu32) < 16 && (end & !0xFu32) % 16 == 0) by (bit_vector);
}

/// The running slot after `k` switches from `cur` while the tasks' states
/// stay as in `tasks`.
pub open spec fn current_after(tasks: Seq<Option<Task>>, cur: int, k: nat) -> int
    decreases k,
{
    if k == 0 {
        cur
    } else {
        next_task_index(tasks, current_after(tasks, cur, (k - 1) as nat))
    }
}

/// The slots and the running slot after one switch per element of `esps`,
/// each saving that stack pointer, as `Scheduler::switch_next` does.
pub open spec fn switches(tasks: Seq<Option<Task>>, cur: int, esps: Seq<u32>) -> (Seq<Option<Task>>, int)
    decreases esps.len(),
{
    if esps.len() == 0 {
        (tasks, cur)
    } else {
        let (t, c) = switches(tasks, cur, esps.drop_last());
        let saved = save_esp(t, c, esps.last());
        (saved, next_task_index(saved, c))
    }
}

proof fn lemma_same_readiness_same_scan(t1: Seq<Option<Task>>, t2: Seq<Option<Task>>, cur: int, k: int)
    requires
        t1.len() == TASK_SLOTS,
        t2.len() == TASK_SLOTS,
        0 <= cur < TASK_SLOTS,
        forall|i: int| 0 <= i < TASK_SLOTS ==> is_ready(#[trigger] t1[i]) == is_ready(t2[i]),
    ensures
        scan_ready(t1, cur, k) == scan_ready(t2, cur, k),
    decreases TASK_SLOTS + 1 - k,
{
    if 1 <= k <= TASK_SLOTS {
        lemma_same_readiness_same_scan(t1, t2, cur, k + 1);
        assert(is_ready(t1[(cur + k) % (TASK_SLOTS as int)]) == is_ready(t2[(cur + k) % (TASK_SLOTS as int)]));
    }
}

/// Switching only saves stack pointers: after any number of switches every
/// slot is as ready as before, and the running slot is the one that
/// switching over the unchanged states gives.
pub proof fn switches_follow_states(tasks: Seq<Option<Task>>, cur: int, esps: Seq<u32>)
    requires
        tasks.len() == TASK_SLOTS,
        0 <= cur < TASK_SLOTS,
    ensures
        ({
            let (t, c) = switches(tasks, cur, esps);
            &&& t.len() == TASK_SLOTS
            &&& forall|i: int| 0 <= i < TASK_SLOTS ==> is_ready(#[trigger] t[i]) == is_ready(tasks[i])
            &&& forall|i: int| 0 <= i < TASK_SLOTS ==> (#[trigger] t[i] is Some) == (tasks[i] is Some)
            &&& c == current_after(tasks, cur, esps.len())
            &&& 0 <= c < TASK_SLOTS
        }),
    decreases esps.len(),
{
    if esps.len() > 0 {
        switches_follow_states(tasks, cur, esps.drop_last());
        let (t, c) = switches(tasks, cur, esps.drop_last());
        let saved = save_esp(t, c, esps.last());
        lemma_save_esp_keeps_schedule(t, c, esps.last(), 1);
        assert forall|i: int| 0 <= i < TASK_SLOTS implies is_ready(#[trigger] saved[i]) == is_ready(t[i]) by {}
        lemma_same_readiness_same_scan(t, tasks, c, 1);
        lemma_scan_ready_in_range(saved, c, 1);
    }
}

proof fn lemma_current_after_shift(tasks: Seq<Option<Task>>, cur: int, k: nat)
    ensures
        current_after(tasks, cur, k + 1) == current_after(tasks, next_task_index(tasks, cur), k),
    decreases k,
{
    reveal_with_fuel(current_after, 2);
    if k > 0 {
        lemma_current_after_shift(tasks, cur, (k - 1) as nat);
    }
}

proof fn lemma_reaches_ready(tasks: Seq<Option<Task>>, cur: int, r: int, j: int)
    requires
        0 <= cur < TASK_SLOTS,
        0 <= r < TASK_SLOTS,
        1 <= j <= TASK_SLOTS,
        r == (cur + j) % (TASK_SLOTS as int),
        is_ready(tasks[r]),
    ensures
        exists|k: nat| 1 <= k <= j && #[trigger] current_after(tasks, cur, k) == r,
    decreases j,
{
    next_is_nearest_ready(tasks, cur);
    let n = next_task_index(tasks, cur);
    reveal_with_fuel(current_after, 2);
    assert(current_after(tasks, cur, 1) == n);
    assert(ready_after(tasks, cur, j));
    if exists|d: int| #[trigger] first_ready_after(tasks, cur, 1, d) && n == (cur + d) % (TASK_SLOTS as int) {
        let d = choose|d: int| #[trigger] first_ready_after(tasks, cur, 1, d) && n == (cur + d) % (TASK_SLOTS as int);
        assert(d <= j);
        if d == j {
            assert(current_after(tasks, cur, 1) == r);
        } else {
            assert(0 <= n < TASK_SLOTS);
            assert(r == (n + (j - d)) % (TASK_SLOTS as int));
            lemma_reaches_ready(tasks, n, r, j - d);
            let k = choose|k: nat| 1 <= k <= j - d && #[trigger] current_after(tasks, n, k) == r;
            lemma_current_after_shift(tasks, cur, k);
            assert(current_after(tasks, cur, k + 1) == r);
        }
    } else {
        assert(!is_ready(tasks[r]));
    }
}

/// Round robin is fair: while the tasks' states stay the same, every ready
/// task becomes the running one within four switches.
pub proof fn ready_task_runs_within_four_switches(tasks: Seq<Option<Task>>, cur: int, r: int)
    requires
        tasks.len() == TASK_SLOTS,
        0 <= cur < TASK_SLOTS,
        0 <= r < TASK_SLOTS,
        is_ready(tasks[r]),
    ensures
        exists|k: nat| 1 <= k <= TASK_SLOTS && #[trigger] current_after(tasks, cur, k) == r,
{
    let j = if r > cur { r - cur } else { r - cur + TASK_SLOTS };
    assert(r == (cur + j) % (TASK_SLOTS as int));
    lemma_reaches_ready(tasks, cur, r, j);
}

/// How far slot `x` lies after `cur` in round-robin order: 1 for the slot
/// right after it, up to `TASK_SLOTS` for `cur` itself.
pub open spec fn cyclic_offset(cur: int, x: int) -> int {
    if x > cur {
        x - cur
    } else {
        x - cur + TASK_SLOTS
    }
}

/// How many of the offsets `1..=j` after `cur` hold a ready task.
pub open spec fn ready_count(tasks: Seq<Option<Task>>, cur: int, j: int) -> int
    decreases j,
{
    if j <= 0 {
        0
    } else {
        ready_count(tasks, cur, j - 1) + if ready_after(tasks, cur, j) {
            1int
        } else {
            0int
        }
    }
}

/// How many of the first `n` slots hold a ready task.
pub open spec fn ready_slot_count(tasks: Seq<Option<Task>>, n: int) -> int
    decreases n,
{
    if n <= 0 {
        0
    } else {
        ready_slot_count(tasks, n - 1) + if is_ready(tasks[n - 1]) {
            1int
        } else {
            0int
        }
    }
}

proof fn lemma_ready_count_rotation(tasks: Seq<Option<Task>>, cur: int)
    requires
        0 <= cur < TASK_SLOTS,
    ensures
        ready_count(tasks, cur, TASK_SLOTS as int) == ready_slot_count(tasks, TASK_SLOTS as int),
{
    reveal_with_fuel(ready_count, 5);
    reveal_with_fuel(ready_slot_count, 5);
    assert((cur + 1) % 4 != (cur + 2) % 4);
    if cur == 0 {
        assert((cur + 1) % 4 == 1 && (cur + 2) % 4 == 2 && (cur + 3) % 4 == 3 && (cur + 4) % 4 == 0);
    } else if cur == 1 {
        assert((cur + 1) % 4 == 2 && (cur + 2) % 4 == 3 && (cur + 3) % 4 == 0 && (cur + 4) % 4 == 1);
    } else if cur == 2 {
        assert((cur + 1) % 4 == 3 && (cur + 2) % 4 == 0 && (cur + 3) % 4 == 1 && (cur + 4) % 4 == 2);
    } else {
        assert((cur + 1) % 4 == 0 && (cur + 2) % 4 == 1 && (cur + 3) % 4 == 2 && (cur + 4) % 4 == 3);
    }
}

proof fn lemma_ready_count_monotone(tasks: Seq<Option<Task>>, cur: int, i: int, j: int)
    requires
        0 <= i <= j,
    ensures
        0 <= ready_count(tasks, cur, i) <= ready_count(tasks, cur, j),
    decreases j,
{
    if i < j {
        lemma_ready_count_monotone(tasks, cur, i, j - 1);
    } else if j > 0 {
        lemma_ready_count_monotone(tasks, cur, 0, j - 1);
    }
}

proof fn lemma_ready_count_gap(tasks: Seq<Option<Task>>, cur: int, i: int, j: int)
    requires
        0 <= i <= j,
        forall|m: int| i < m <= j ==> !#[trigger] ready_after(tasks, cur, m),
    ensures
        ready_count(tasks, cur, j) == ready_count(tasks, cur, i),
    decreases j,
{
    if i < j {
        lemma_ready_count_gap(tasks, cur, i, j - 1);
    }
}

proof fn lemma_ready_beyond(tasks: Seq<Option<Task>>, cur: int, i: int, j: int)
    requires
        0 <= i <= j,
        ready_count(tasks, cur, i) < ready_count(tasks, cur, j),
    ensures
        exists|m: int| i < m <= j && #[trigger] ready_after(tasks, cur, m),
    decreases j,
{
    if ready_after(tasks, cur, j) {
        assert(i < j);
    } else {
        lemma_ready_beyond(tasks, cur, i, j - 1);
        let m = choose|m: int| i < m <= j - 1 && #[trigger] ready_after(tasks, cur, m);
    }
}

/// After `k` switches from `cur`, with `k` at most the number of ready
/// tasks, the running slot is the ready slot with the `k`-th smallest
/// offset after `cur`.
#[verifier::spinoff_prover]
#[verifier::rlimit(40)]
proof fn lemma_kth_switch(tasks: Seq<Option<Task>>, cur: int, k: int)
    requires
        0 <= cur < TASK_SLOTS,
        1 <= k <= ready_count(tasks, cur, TASK_SLOTS as int),
    ensures
        ({
            let c = current_after(tasks, cur, k as nat);
            let j = cyclic_offset(cur, c);
            &&& 0 <= c < TASK_SLOTS
            &&& 1 <= j <= TASK_SLOTS
            &&& c == (cur + j) % (TASK_SLOTS as int)
            &&& ready_after(tasks, cur, j)
            &&& ready_count(tasks, cur, j) == k
        }),
    decreases k,
{
    reveal_with_fuel(current_after, 2);
    let (base, start) = if k == 1 {
        (cur, 0int)
    } else {
        lemma_kth_switch(tasks, cur, k - 1);
        let c = current_after(tasks, cur, (k - 1) as nat);
        (c, cyclic_offset(cur, c))
    };
    // `base` is the running slot before the `k`-th switch, `start` its offset
    assert(0 <= base < TASK_SLOTS);
    assert(base == (cur + start) % (TASK_SLOTS as int) || (k == 1 && base == cur));
    assert(ready_count(tasks, cur, start) == k - 1) by {
        if k == 1 {
            assert(ready_count(tasks, cur, 0) == 0);
        }
    }
    lemma_ready_beyond(tasks, cur, start, TASK_SLOTS as int);
    let m = choose|m: int| start < m <= TASK_SLOTS && #[trigger] ready_after(tasks, cur, m);
    assert forall|e: int| 1 <= e && start + e <= TASK_SLOTS implies #[trigger] ready_after(tasks, base, e)
        == ready_after(tasks, cur, start + e) by {
        assert((base + e) % (TASK_SLOTS as int) == (cur + start + e) % (TASK_SLOTS as int));
    }
    assert(ready_after(tasks, base, m - start));
    next_is_nearest_ready(tasks, base);
    let n = next_task_index(tasks, base);
    assert(current_after(tasks, cur, k as nat) == n) by {
        if k > 1 {
            lemma_current_after_unfold(tasks, cur, k as nat);
        }
    }
    if exists|d: int| #[trigger] first_ready_after(tasks, base, 1, d) && n == (base + d) % (TASK_SLOTS as int) {
        let d = choose|d: int| #[trigger] first_ready_after(tasks, base, 1, d) && n == (base + d) % (TASK_SLOTS as int);
        assert(d <= m - start);
        assert forall|g: int| start < g < start + d implies !#[trigger] ready_after(tasks, cur, g) by {
            assert(!ready_after(tasks, base, g - start));
        }
        lemma_ready_count_gap(tasks, cur, start, start + d - 1);
        assert(ready_after(tasks, cur, start + d));
        assert(n == (cur + start + d) % (TASK_SLOTS as int));
        assert(cyclic_offset(cur, n) == start + d);
    } else {
        assert(!is_ready(tasks[(base + (m - start)) % (TASK_SLOTS as int)]));
    }
}

proof fn lemma_current_after_unfold(tasks: Seq<Option<Task>>, cur: int, k: nat)
    requires
        k >= 1,
    ensures
        current_after(tasks, cur, k) == next_task_index(tasks, current_after(tasks, cur, (k - 1) as nat)),
{
}

/// The running slots after switches `1, ..., r` from `cur`, with `r` the
/// number of ready tasks, stated over the unchanged states.
proof fn lemma_round_robin_current_after(tasks: Seq<Option<Task>>, cur: int)
    requires
        tasks.len() == TASK_SLOTS,
        0 <= cur < TASK_SLOTS,
    ensures
        ({
            let r = ready_slot_count(tasks, TASK_SLOTS as int);
            &&& forall|k: int|
                1 <= k <= r ==> 0 <= #[trigger] current_after(tasks, cur, k as nat) < TASK_SLOTS
                    && is_ready(tasks[current_after(tasks, cur, k as nat)])
            &&& forall|k1: int, k2: int|
                1 <= k1 < k2 <= r ==> cyclic_offset(cur, #[trigger] current_after(tasks, cur, k1 as nat))
                    < cyclic_offset(cur, #[trigger] current_after(tasks, cur, k2 as nat))
                    && current_after(tasks, cur, k1 as nat) != current_after(tasks, cur, k2 as nat)
            &&& forall|x: int|
                0 <= x < TASK_SLOTS && is_ready(#[trigger] tasks[x]) ==> exists|k: int|
                    1 <= k <= r && #[trigger] current_after(tasks, cur, k as nat) == x
        }),
{
    lemma_ready_count_rotation(tasks, cur);
    let r = ready_slot_count(tasks, TASK_SLOTS as int);
    assert forall|k: int| 1 <= k <= r implies 0 <= #[trigger] current_after(tasks, cur, k as nat) < TASK_SLOTS
        && is_ready(tasks[current_after(tasks, cur, k as nat)]) by {
        lemma_kth_switch(tasks, cur, k);
    }
    assert forall|k1: int, k2: int| 1 <= k1 < k2 <= r implies cyclic_offset(
        cur,
        #[trigger] current_after(tasks, cur, k1 as nat),
    ) < cyclic_offset(cur, #[trigger] current_after(tasks, cur, k2 as nat)) && current_after(tasks, cur, k1 as nat)
        != current_after(tasks, cur, k2 as nat) by {
        lemma_kth_switch(tasks, cur, k1);
        lemma_kth_switch(tasks, cur, k2);
        let j1 = cyclic_offset(cur, current_after(tasks, cur, k1 as nat));
        let j2 = cyclic_offset(cur, current_after(tasks, cur, k2 as nat));
        if j2 <= j1 {
            lemma_ready_count_monotone(tasks, cur, j2, j1);
        }
    }
    assert forall|x: int| 0 <= x < TASK_SLOTS && is_ready(#[trigger] tasks[x]) implies exists|k: int|
        1 <= k <= r && #[trigger] current_after(tasks, cur, k as nat) == x by {
        let j = cyclic_offset(cur, x);
        assert(x == (cur + j) % (TASK_SLOTS as int));
        assert(ready_after(tasks, cur, j));
        lemma_ready_count_monotone(tasks, cur, j - 1, j);
        lemma_ready_count_monotone(tasks, cur, 0, j - 1);
        lemma_ready_count_monotone(tasks, cur, j, TASK_SLOTS as int);
        let k = ready_count(tasks, cur, j);
        lemma_kth_switch(tasks, cur, k);
        let jk = cyclic_offset(cur, current_after(tasks, cur, k as nat));
        if jk < j {
            lemma_ready_count_monotone(tasks, cur, jk, j - 1);
        } else if jk > j {
            lemma_ready_count_monotone(tasks, cur, j, jk - 1);
        }
        assert(jk == j);
        assert(current_after(tasks, cur, k as nat) == x);
    }
}

/// The running slot after the first `k` of the switches that save the stack
/// pointers `esps`, one `Scheduler::switch_next` call each.
pub open spec fn running_after(tasks: Seq<Option<Task>>, cur: int, esps: Seq<u32>, k: int) -> int {
    switches(tasks, cur, esps.take(k)).1
}

/// Round robin visits every ready task exactly once per round: with `r`
/// ready tasks and nothing but `r` consecutive switches in between, the
/// running slots after switches `1, ..., r` are ready, come in strictly
/// increasing cyclic order after the slot that ran first (so no slot comes
/// twice), and include every ready slot.
pub proof fn round_robin_visits_each_ready_task_once(tasks: Seq<Option<Task>>, cur: int, esps: Seq<u32>)
    requires
        tasks.len() == TASK_SLOTS,
        0 <= cur < TASK_SLOTS,
        esps.len() == ready_slot_count(tasks, TASK_SLOTS as int),
    ensures
        ({
            let r = esps.len() as int;
            &&& forall|k: int|
                1 <= k <= r ==> 0 <= #[trigger] running_after(tasks, cur, esps, k) < TASK_SLOTS
                    && is_ready(tasks[running_after(tasks, cur, esps, k)])
            &&& forall|k1: int, k2: int|
                1 <= k1 < k2 <= r ==> cyclic_offset(cur, #[trigger] running_after(tasks, cur, esps, k1))
                    < cyclic_offset(cur, #[trigger] running_after(tasks, cur, esps, k2))
                    && running_after(tasks, cur, esps, k1) != running_after(tasks, cur, esps, k2)
            &&& forall|x: int|
                0 <= x < TASK_SLOTS && is_ready(#[trigger] tasks[x]) ==> exists|k: int|
                    1 <= k <= r && #[trigger] running_after(tasks, cur, esps, k) == x
        }),
{
    lemma_round_robin_current_after(tasks, cur);
    let r = esps.len() as int;
    assert forall|k: int| 0 <= k <= r implies #[trigger] running_after(tasks, cur, esps, k) == current_after(
        tasks,
        cur,
        k as nat,
    ) by {
        switches_follow_states(tasks, cur, esps.take(k));
    }
    assert forall|x: int| 0 <= x < TASK_SLOTS && is_ready(#[trigger] tasks[x]) implies exists|k: int|
        1 <= k <= r && #[trigger] running_after(tasks, cur, esps, k) == x by {
        let k = choose|k: int| 1 <= k <= r && #[trigger] current_after(tasks, cur, k as nat) == x;
        assert(running_after(tasks, cur, esps, k) == x);
    }
}

/// A switch goes to a task whose state is `READY`, the first such task
/// after the running slot in slot order (wrapping around, the running slot
/// itself last); suspended tasks and empty slots are passed over, and when
/// no slot holds a `READY` task the running slot stays.
pub proof fn switch_picks_next_ready_state(tasks: Seq<Option<Task>>, cur: int)
    requires
        tasks.len() == TASK_SLOTS,
        0 <= cur < TASK_SLOTS,
    ensures
        ({
            let n = next_task_index(tasks, cur);
            let any_ready = exists|i: int|
                0 <= i < 4 && (#[trigger] tasks[i]) is Some && tasks[i]->Some_0.state == TaskState::READY;
            &&& 0 <= n < 4
            &&& any_ready ==> tasks[n] is Some && tasks[n]->Some_0.state == TaskState::READY
            &&& any_ready ==> forall|d: int|
                1 <= d < cyclic_offset(cur, n) ==> !(#[trigger] tasks[(cur + d) % 4] is Some && tasks[(cur + d)
                    % 4]->Some_0.state == TaskState::READY)
            &&& !any_ready ==> n == cur
        }),
{
    next_is_nearest_ready(tasks, cur);
    lemma_scan_ready_in_range(tasks, cur, 1);
    let n = next_task_index(tasks, cur);
    let any_ready = exists|i: int|
        0 <= i < 4 && (#[trigger] tasks[i]) is Some && tasks[i]->Some_0.state == TaskState::READY;
    if exists|j: int| #[trigger] first_ready_after(tasks, cur, 1, j) && n == (cur + j) % (TASK_SLOTS as int) {
        let j = choose|j: int| #[trigger] first_ready_after(tasks, cur, 1, j) && n == (cur + j) % (TASK_SLOTS as int);
        assert(cyclic_offset(cur, n) == j);
        assert(ready_after(tasks, cur, j));
        assert forall|d: int| 1 <= d < cyclic_offset(cur, n) implies !(#[trigger] tasks[(cur + d) % 4] is Some
            && tasks[(cur + d) % 4]->Some_0.state == TaskState::READY) by {
            assert(!ready_after(tasks, cur, d));
        }
    } else {
        if any_ready {
            let i = choose|i: int|
                0 <= i < 4 && (#[trigger] tasks[i]) is Some && tasks[i]->Some_0.state == TaskState::READY;
            assert(is_ready(tasks[i]));
        }
    }
}

proof fn lemma_le_bytes_recompose(w: u32)
    ensures
        le_byte(w, 0) + 0x100 * le_byte(w, 1) + 0x10000 * le_byte(w, 2) + 0x1000000 * le_byte(w, 3) == w,
{
    assert(((w >> 0u32) & 0xFFu32) as u8 + 0x100 * (((w >> 8u32) & 0xFFu32) as u8) + 0x10000 * (((w >> 16u32)
        & 0xFFu32) as u8) + 0x1000000 * (((w >> 24u32) & 0xFFu32) as u8) == w) by (bit_vector);
}

/// The stack of a new task as its first switch finds it: the saved stack
/// pointer lies 44 bytes below the end of the stack rounded down to 16
/// bytes, and from there up the stack holds eleven little-endian 32-bit
/// words, the eight general registers (EDI, ESI, EBP, ESP, EBX, EDX, ECX,
/// EAX) all zero, then the entry point, the kernel code selector 0x08 and
/// the flags 0x202 (interrupts enabled), as `popa; iretd` pops them; every
/// other byte of the stack is left as it was.
pub proof fn new_task_stack_image(stack: Seq<u8>, stack_addr: u32, entry_point: u32)
    requires
        stack.len() == STACK_SIZE,
        stack_addr + STACK_SIZE <= u32::MAX,
    ensures
        ({
            let o = initial_esp(stack_addr) - stack_addr;
            let img = store_frame(stack, o, initial_frame(entry_point));
            let words = seq![0u32, 0, 0, 0, 0, 0, 0, 0, entry_point, 0x08, 0x202];
            &&& initial_esp(stack_addr) + 44 == ((stack_addr + 8192) / 16) * 16
            &&& 0 <= o && o + 44 <= 8192
            &&& img.len() == stack.len()
            &&& forall|k: int|
                0 <= k < 11 ==> #[trigger] img[o + 4 * k] + 0x100 * img[o + 4 * k + 1] + 0x10000 * img[o + 4 * k
                    + 2] + 0x1000000 * img[o + 4 * k + 3] == words[k]
            &&& forall|i: int| 0 <= i < stack.len() && !(o <= i < o + 44) ==> #[trigger] img[i] == stack[i]
        }),
{
    initial_frame_in_stack(stack_addr);
    let end = (stack_addr + STACK_SIZE) as u32;
    assert(end & !0xFu32 == (end / 16) * 16) by (bit_vector);
    let o = initial_esp(stack_addr) - stack_addr;
    let f = initial_frame(entry_point);
    let img = store_frame(stack, o, f);
    let words = seq![0u32, 0, 0, 0, 0, 0, 0, 0, entry_point, 0x08, 0x202];
    assert forall|k: int| 0 <= k < 11 implies #[trigger] img[o + 4 * k] + 0x100 * img[o + 4 * k + 1] + 0x10000
        * img[o + 4 * k + 2] + 0x1000000 * img[o + 4 * k + 3] == words[k] by {
        assert(frame_word(f, k) == words[k]);
        assert forall|j: int| 0 <= j < 4 implies img[o + 4 * k + j] == le_byte(frame_word(f, k), j) by {
            assert((4 * k + j) / 4 == k && (4 * k + j) % 4 == j);
        }
        lemma_le_bytes_recompose(frame_word(f, k));
        assert(img[o + 4 * k] == le_byte(frame_word(f, k), 0));
        assert(img[o + 4 * k + 1] == le_byte(frame_word(f, k), 1));
        assert(img[o + 4 * k + 2] == le_byte(frame_word(f, k), 2));
        assert(img[o + 4 * k + 3] == le_byte(frame_word(f, k), 3));
    }
}

} // verus!
