use vstd::prelude::*;

verus! {

/// Counts of the quests in play and of all quests handed out.
#[derive(Debug, Clone, Copy, Default, PartialEq, Eq, Structural)]
pub struct QuestManager {
    pub active_quest_count: usize,
    pub total_quests_generated: usize,
}

impl QuestManager {
    /// No quest in play and none handed out.
    pub fn new() -> (q: QuestManager)
        ensures
            q.active_quest_count == 0,
            q.total_quests_generated == 0,
    {
        QuestManager { active_quest_count: 0, total_quests_generated: 0 }
    }

    /// A new quest comes into play.
    pub fn add_quest(&mut self)
        requires
            old(self).active_quest_count < usize::MAX,
            old(self).total_quests_generated < usize::MAX,
        ensures
            final(self).active_quest_count == old(self).active_quest_count + 1,
            final(self).total_quests_generated == old(self).total_quests_generated + 1,
            *final(self) == after_add(*old(self)),
    {
        self.active_quest_count += 1;
        self.total_quests_generated += 1;
    }

    /// A quest leaves play (fulfilled or failed); nothing happens when none is in play.
    pub fn complete_or_remove_quest(&mut self)
        ensures
            final(self).active_quest_count == if old(self).active_quest_count > 0 {
                (old(self).active_quest_count - 1) as usize
            } else {
                0
            },
            final(self).total_quests_generated == old(self).total_quests_generated,
            *final(self) == after_complete(*old(self)),
    {
        if self.active_quest_count > 0 {
            self.active_quest_count -= 1;
        }
    }

    /// Forgets all quests.
    pub fn reset(&mut self)
        ensures
            final(self).active_quest_count == 0,
            final(self).total_quests_generated == 0,
    {
        self.active_quest_count = 0;
        self.total_quests_generated = 0;
    }
}

/// The counts after a quest comes into play.
pub open spec fn after_add(q: QuestManager) -> QuestManager {
    QuestManager {
        active_quest_count: (q.active_quest_count + 1) as usize,
        total_quests_generated: (q.total_quests_generated + 1) as usize,
    }
}

/// The counts after a quest leaves play.
pub open spec fn after_complete(q: QuestManager) -> QuestManager {
    QuestManager {
        active_quest_count: if q.active_quest_count > 0 { (q.active_quest_count - 1) as usize } else { 0 },
        total_quests_generated: q.total_quests_generated,
    }
}

/// Law: a quest that comes into play and leaves again leaves the number in play as it was,
/// while the number handed out keeps the new quest.
pub proof fn lemma_add_then_complete(q: QuestManager)
    requires
        q.active_quest_count < usize::MAX,
        q.total_quests_generated < usize::MAX,
    ensures
        after_complete(after_add(q)).active_quest_count == q.active_quest_count,
        after_complete(after_add(q)).total_quests_generated == q.total_quests_generated + 1,
{
}

} // verus!
