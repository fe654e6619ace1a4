use world_smith::command::{Command, CommandError, CommandStack};

#[derive(Debug)]
struct TestCommand {
    value: i32,
    executed: bool,
}

impl Command<i32> for TestCommand {
    fn execute(&mut self, ctx: &mut i32) -> Result<(), CommandError> {
        self.executed = true;
        *ctx = self.value;
        Ok(())
    }
    fn undo(&mut self, _ctx: &mut i32) -> Result<(), CommandError> {
        self.executed = false;
        Ok(())
    }
    fn description(&self) -> &str {
        "Test Command"
    }
}

/// Adds to the context and takes the addition back.
#[derive(Debug)]
struct AddCommand {
    amount: i32,
}

impl Command<i32> for AddCommand {
    fn execute(&mut self, ctx: &mut i32) -> Result<(), CommandError> {
        *ctx += self.amount;
        Ok(())
    }
    fn undo(&mut self, ctx: &mut i32) -> Result<(), CommandError> {
        *ctx -= self.amount;
        Ok(())
    }
    fn description(&self) -> &str {
        "add"
    }
}

/// Always fails.
#[derive(Debug)]
struct FailingCommand;

impl Command<i32> for FailingCommand {
    fn execute(&mut self, _ctx: &mut i32) -> Result<(), CommandError> {
        Err(CommandError::InvalidContext)
    }
    fn undo(&mut self, _ctx: &mut i32) -> Result<(), CommandError> {
        Err(CommandError::InvalidContext)
    }
    fn description(&self) -> &str {
        "fail"
    }
}

#[test]
fn test_undo_redo_cycle() {
    let mut stack = CommandStack::<i32>::new(100);
    let mut ctx = 0i32;

    let cmd = Box::new(TestCommand {
        value: 42,
        executed: false,
    });
    stack.execute(cmd, &mut ctx).unwrap();
    assert_eq!(ctx, 42);

    assert!(stack.can_undo());
    assert!(!stack.can_redo());

    stack.undo(&mut ctx).unwrap();
    assert!(!stack.can_undo());
    assert!(stack.can_redo());

    stack.redo(&mut ctx).unwrap();
    assert!(stack.can_undo());
    assert!(!stack.can_redo());
    assert_eq!(ctx, 42);
}

#[test]
fn test_max_history_limit() {
    let mut stack = CommandStack::<i32>::new(3);
    let mut ctx = 0i32;

    for i in 0..5 {
        let cmd = Box::new(TestCommand {
            value: i,
            executed: false,
        });
        stack.execute(cmd, &mut ctx).unwrap();
    }

    assert_eq!(stack.undo_stack.len(), 3);
}

#[test]
fn undo_then_redo_gives_the_context_back() {
    let mut stack = CommandStack::<i32>::new(10);
    let mut ctx = 5i32;
    stack.execute(Box::new(AddCommand { amount: 3 }), &mut ctx).unwrap();
    stack.execute(Box::new(AddCommand { amount: 4 }), &mut ctx).unwrap();
    assert_eq!(ctx, 12);
    assert_eq!(stack.undo(&mut ctx).unwrap(), true);
    assert_eq!(ctx, 8);
    assert_eq!(stack.redo(&mut ctx).unwrap(), true);
    assert_eq!(ctx, 12);
    assert_eq!(stack.undo(&mut ctx).unwrap(), true);
    assert_eq!(stack.undo(&mut ctx).unwrap(), true);
    assert_eq!(ctx, 5);
    assert_eq!(stack.undo_stack.len(), 0);
    assert_eq!(stack.redo_stack.len(), 2);
}

#[test]
fn undo_and_redo_on_empty_history_report_nothing_done() {
    let mut stack = CommandStack::<i32>::new(10);
    let mut ctx = 7i32;
    assert_eq!(stack.undo(&mut ctx).unwrap(), false);
    assert_eq!(stack.redo(&mut ctx).unwrap(), false);
    assert_eq!(ctx, 7);
}

#[test]
fn new_command_clears_redo_side() {
    let mut stack = CommandStack::<i32>::new(10);
    let mut ctx = 0i32;
    stack.execute(Box::new(AddCommand { amount: 1 }), &mut ctx).unwrap();
    stack.undo(&mut ctx).unwrap();
    assert!(stack.can_redo());
    stack.execute(Box::new(AddCommand { amount: 2 }), &mut ctx).unwrap();
    assert!(!stack.can_redo());
    assert_eq!(ctx, 2);
}

#[test]
fn failed_command_is_not_recorded() {
    let mut stack = CommandStack::<i32>::new(10);
    let mut ctx = 1i32;
    let r = stack.execute(Box::new(FailingCommand), &mut ctx);
    assert_eq!(r, Err(CommandError::InvalidContext));
    assert!(!stack.can_undo());
    assert_eq!(ctx, 1);
}

#[test]
fn push_to_undo_keeps_the_most_recent() {
    let mut stack = CommandStack::<i32>::new(2);
    let mut ctx = 0i32;
    stack.execute(Box::new(AddCommand { amount: 1 }), &mut ctx).unwrap();
    stack.undo(&mut ctx).unwrap();
    stack.push_to_undo(Box::new(AddCommand { amount: 10 }));
    stack.push_to_undo(Box::new(AddCommand { amount: 20 }));
    stack.push_to_undo(Box::new(AddCommand { amount: 30 }));
    assert_eq!(stack.undo_stack.len(), 2);
    assert!(!stack.can_redo());
    ctx = 50;
    stack.undo(&mut ctx).unwrap();
    assert_eq!(ctx, 20);
    stack.undo(&mut ctx).unwrap();
    assert_eq!(ctx, 0);
    assert!(!stack.can_undo());
}

#[test]
fn clear_forgets_everything() {
    let mut stack = CommandStack::<i32>::new(10);
    let mut ctx = 0i32;
    stack.execute(Box::new(AddCommand { amount: 1 }), &mut ctx).unwrap();
    stack.execute(Box::new(AddCommand { amount: 1 }), &mut ctx).unwrap();
    stack.undo(&mut ctx).unwrap();
    stack.clear();
    assert!(!stack.can_undo());
    assert!(!stack.can_redo());
}
